// An interval tree answering which stored intervals lie within a given one.
use vstd::prelude::*;

verus! {

/// A closed interval `[low, high]` with `low <= high`.
#[derive(Clone, Copy, Debug)]
pub struct Interval {
    low: i64,
    high: i64,
}

impl Interval {
    #[verifier::type_invariant]
    spec fn inv(self) -> bool {
        self.low <= self.high
    }

    /// The low end.
    pub closed spec fn lo(self) -> i64 {
        self.low
    }

    /// The high end.
    pub closed spec fn hi(self) -> i64 {
        self.high
    }

    /// The interval `[low, high]`.
    pub fn new(low: i64, high: i64) -> (r: Interval)
        requires
            low <= high,
        ensures
            r.lo() == low,
            r.hi() == high,
    {
        Interval { low, high }
    }

    /// This interval lies within `other`.
    pub open spec fn within(self, other: Interval) -> bool {
        other.lo() <= self.lo() && self.hi() <= other.hi()
    }

    fn is_contained_in(&self, other: &Interval) -> (r: bool)
        ensures
            r == self.within(*other),
    {
        other.low <= self.low && self.high <= other.high
    }
}

/// The data of the entries of `s` whose interval lies within `q`, in order.
pub open spec fn contained<D>(s: Seq<(Interval, D)>, q: Interval) -> Seq<D>
    decreases s.len(),
{
    if s.len() == 0 {
        Seq::empty()
    } else {
        let w = contained(s.drop_last(), q);
        if s.last().0.within(q) {
            w.push(s.last().1)
        } else {
            w
        }
    }
}

/// Contained data of a concatenation is the concatenation of contained data.
pub proof fn lemma_contained_concat<D>(a: Seq<(Interval, D)>, b: Seq<(Interval, D)>, q: Interval)
    ensures
        contained(a + b, q) == contained(a, q) + contained(b, q),
    decreases b.len(),
{
    if b.len() == 0 {
        assert(a + b == a);
        assert(contained(a, q) + Seq::<D>::empty() == contained(a, q));
    } else {
        lemma_contained_concat(a, b.drop_last(), q);
        assert((a + b).drop_last() == a + b.drop_last());
        let ca = contained(a, q);
        let cb = contained(b.drop_last(), q);
        if b.last().0.within(q) {
            assert(ca + cb.push(b.last().1) == (ca + cb).push(b.last().1));
        }
    }
}

/// No entry lies within `q`, so none is contained.
pub proof fn lemma_contained_none<D>(s: Seq<(Interval, D)>, q: Interval)
    requires
        forall|i: int| 0 <= i < s.len() ==> !(#[trigger] s[i]).0.within(q),
    ensures
        contained(s, q) == Seq::<D>::empty(),
    decreases s.len(),
{
    if s.len() > 0 {
        assert(!s[s.len() - 1].0.within(q));
        assert forall|i: int| 0 <= i < s.drop_last().len() implies !(#[trigger] s.drop_last()[i]).0.within(q) by {
            assert(s.drop_last()[i] == s[i]);
        }
        lemma_contained_none(s.drop_last(), q);
    }
}

/// `s` with `e` placed after the last entry whose low end is at most `e`'s.
pub open spec fn insert_by_low<D>(s: Seq<(Interval, D)>, e: (Interval, D)) -> Seq<(Interval, D)>
    decreases s.len(),
{
    if s.len() == 0 {
        seq![e]
    } else if s.last().0.lo() <= e.0.lo() {
        s.push(e)
    } else {
        insert_by_low(s.drop_last(), e).push(s.last())
    }
}

proof fn lemma_insert_left<D>(a: Seq<(Interval, D)>, b: Seq<(Interval, D)>, e: (Interval, D))
    requires
        forall|i: int| 0 <= i < b.len() ==> (#[trigger] b[i]).0.lo() > e.0.lo(),
    ensures
        insert_by_low(a + b, e) == insert_by_low(a, e) + b,
    decreases b.len(),
{
    if b.len() == 0 {
        assert(a + b == a);
    } else {
        assert((a + b).drop_last() == a + b.drop_last());
        assert((a + b).last() == b.last());
        assert(b.last().0.lo() > e.0.lo());
        assert forall|i: int| 0 <= i < b.drop_last().len() implies (#[trigger] b.drop_last()[i]).0.lo() > e.0.lo() by {
            assert(b.drop_last()[i] == b[i]);
        }
        lemma_insert_left(a, b.drop_last(), e);
        assert(insert_by_low(a, e) + b.drop_last().push(b.last()) == (insert_by_low(a, e) + b.drop_last()).push(b.last()));
        assert(b.drop_last().push(b.last()) == b);
    }
}

proof fn lemma_insert_right<D>(a: Seq<(Interval, D)>, b: Seq<(Interval, D)>, e: (Interval, D))
    requires
        forall|i: int| 0 <= i < a.len() ==> (#[trigger] a[i]).0.lo() <= e.0.lo(),
    ensures
        insert_by_low(a + b, e) == a + insert_by_low(b, e),
    decreases b.len(),
{
    if b.len() == 0 {
        assert(a + b == a);
        if a.len() > 0 {
            assert(a.last().0.lo() <= e.0.lo());
        }
        assert(a.push(e) == a + seq![e]);
    } else {
        assert((a + b).drop_last() == a + b.drop_last());
        assert((a + b).last() == b.last());
        if b.last().0.lo() <= e.0.lo() {
            assert((a + b).push(e) == a + b.push(e));
        } else {
            lemma_insert_right(a, b.drop_last(), e);
            assert((a + insert_by_low(b.drop_last(), e)).push(b.last()) == a + insert_by_low(b.drop_last(), e).push(b.last()));
        }
    }
}

proof fn lemma_insert_contents<D>(s: Seq<(Interval, D)>, e: (Interval, D))
    ensures
        insert_by_low(s, e).len() == s.len() + 1,
        forall|x: (Interval, D)| #[trigger] insert_by_low(s, e).contains(x) <==> (s.contains(x) || x == e),
    decreases s.len(),
{
    if s.len() > 0 && s.last().0.lo() > e.0.lo() {
        lemma_insert_contents(s.drop_last(), e);
        let t = insert_by_low(s.drop_last(), e);
        assert forall|x: (Interval, D)| #[trigger] insert_by_low(s, e).contains(x) <==> (s.contains(x) || x == e) by {
            if t.push(s.last()).contains(x) {
                let k = choose|k: int| 0 <= k < t.push(s.last()).len() && t.push(s.last())[k] == x;
                if k < t.len() {
                    assert(t.contains(x));
                    if s.drop_last().contains(x) {
                        let j = choose|j: int| 0 <= j < s.drop_last().len() && s.drop_last()[j] == x;
                        assert(s[j] == x);
                    }
                } else {
                    assert(s[s.len() - 1] == x);
                }
            }
            if s.contains(x) {
                let j = choose|j: int| 0 <= j < s.len() && s[j] == x;
                if j < s.len() - 1 {
                    assert(s.drop_last()[j] == x);
                    assert(t.contains(x));
                    let k = choose|k: int| 0 <= k < t.len() && t[k] == x;
                    assert(t.push(s.last())[k] == x);
                } else {
                    assert(t.push(s.last())[t.len() as int] == x);
                }
            }
            if x == e {
                assert(t.contains(x));
                let k = choose|k: int| 0 <= k < t.len() && t[k] == x;
                assert(t.push(s.last())[k] == x);
            }
        }
    } else if s.len() > 0 {
        assert forall|x: (Interval, D)| #[trigger] s.push(e).contains(x) <==> (s.contains(x) || x == e) by {
            if s.push(e).contains(x) {
                let k = choose|k: int| 0 <= k < s.push(e).len() && s.push(e)[k] == x;
                if k < s.len() {
                    assert(s[k] == x);
                }
            }
            if s.contains(x) {
                let j = choose|j: int| 0 <= j < s.len() && s[j] == x;
                assert(s.push(e)[j] == x);
            }
            if x == e {
                assert(s.push(e)[s.len() as int] == x);
            }
        }
    } else {
        assert forall|x: (Interval, D)| #[trigger] seq![e].contains(x) <==> (s.contains(x) || x == e) by {
            if x == e {
                assert(seq![e][0] == x);
            }
        }
    }
}

/// A node of the tree: an entry, the largest high end in its subtree, and the
/// subtrees of entries with smaller low ends (left) and the others (right).
#[derive(Debug)]
pub struct IntervalNode<D> {
    interval: Interval,
    data: D,
    max: i64,
    left: Option<Box<IntervalNode<D>>>,
    right: Option<Box<IntervalNode<D>>>,
}

/// Entries of an optional subtree, in order of low end.
pub closed spec fn subtree_entries<D>(n: Option<Box<IntervalNode<D>>>) -> Seq<(Interval, D)>
    decreases n,
{
    match n {
        Some(b) => subtree_entries(b.left) + seq![(b.interval, b.data)] + subtree_entries(b.right),
        None => Seq::empty(),
    }
}

/// Largest high end of an optional subtree, as recorded in its root.
pub closed spec fn subtree_max<D>(n: Option<Box<IntervalNode<D>>>) -> Option<i64> {
    match n {
        Some(b) => Some(b.max),
        None => None,
    }
}

/// Every node records the largest high end below it, holds a valid interval, and
/// separates its subtrees by low end.
pub closed spec fn subtree_wf<D>(n: Option<Box<IntervalNode<D>>>) -> bool
    decreases n,
{
    match n {
        Some(b) => {
            let l = subtree_entries(b.left);
            let r = subtree_entries(b.right);
            &&& subtree_wf(b.left)
            &&& subtree_wf(b.right)
            &&& b.interval.lo() <= b.interval.hi()
            &&& b.max >= b.interval.hi()
            &&& (b.max == b.interval.hi() || subtree_max(b.left) == Some(b.max) || subtree_max(b.right) == Some(b.max))
            &&& (subtree_max(b.left) matches Some(m) ==> m <= b.max)
            &&& (subtree_max(b.right) matches Some(m) ==> m <= b.max)
            &&& forall|i: int| 0 <= i < l.len() ==> (#[trigger] l[i]).0.lo() < b.interval.lo()
            &&& forall|i: int| 0 <= i < r.len() ==> (#[trigger] r[i]).0.lo() >= b.interval.lo()
        },
        None => true,
    }
}

/// In a well-formed subtree every entry is valid and ends at or below the root's
/// recorded maximum.
proof fn lemma_subtree_bounds<D>(n: Option<Box<IntervalNode<D>>>)
    requires
        subtree_wf(n),
    ensures
        forall|i: int| 0 <= i < subtree_entries(n).len() ==> {
            let e = #[trigger] subtree_entries(n)[i];
            &&& e.0.lo() <= e.0.hi()
            &&& (subtree_max(n) matches Some(m) && e.0.hi() <= m)
        },
    decreases n,
{
    if let Some(b) = n {
        lemma_subtree_bounds(b.left);
        lemma_subtree_bounds(b.right);
        let l = subtree_entries(b.left);
        let r = subtree_entries(b.right);
        let s = subtree_entries(n);
        assert(s == l + seq![(b.interval, b.data)] + r);
        assert forall|i: int| 0 <= i < s.len() implies {
            let e = #[trigger] s[i];
            &&& e.0.lo() <= e.0.hi()
            &&& (subtree_max(n) matches Some(m) && e.0.hi() <= m)
        } by {
            if i < l.len() {
                assert(s[i] == l[i]);
            } else if i == l.len() {
            } else {
                assert(s[i] == r[i - l.len() - 1]);
            }
        }
    }
}

impl<D: Copy> IntervalNode<D> {
    /// The entries below this node, in order of low end.
    pub closed spec fn entries(self) -> Seq<(Interval, D)> {
        subtree_entries(Some(Box::new(self)))
    }

    /// The subtree below this node is well formed.
    pub closed spec fn wf(self) -> bool {
        subtree_wf(Some(Box::new(self)))
    }

    fn new(interval: Interval, data: D) -> (r: IntervalNode<D>)
        requires
            interval.lo() <= interval.hi(),
        ensures
            r.wf(),
            r.entries() == seq![(interval, data)],
            r.max == interval.hi(),
    {
        let max = interval.high;
        let r = IntervalNode { interval, data, max, left: None, right: None };
        assert(subtree_entries(r.left) == Seq::<(Interval, D)>::empty());
        assert(subtree_entries(r.right) == Seq::<(Interval, D)>::empty());
        assert(Seq::<(Interval, D)>::empty() + seq![(interval, data)] + Seq::<(Interval, D)>::empty() == seq![(interval, data)]);
        assert(subtree_wf(r.left) && subtree_wf(r.right));
        assert(r.wf());
        r
    }

    /// Recomputes `max` from the node's own interval and its children.
    fn update_max(&mut self)
        ensures
            final(self).interval == old(self).interval,
            final(self).data == old(self).data,
            final(self).left == old(self).left,
            final(self).right == old(self).right,
            final(self).max >= final(self).interval.hi(),
            final(self).max == final(self).interval.hi() || subtree_max(final(self).left) == Some(final(self).max)
                || subtree_max(final(self).right) == Some(final(self).max),
            subtree_max(final(self).left) matches Some(m) ==> m <= final(self).max,
            subtree_max(final(self).right) matches Some(m) ==> m <= final(self).max,
    {
        self.max = self.interval.high;
        match &self.left {
            Some(l) => {
                if l.max > self.max {
                    self.max = l.max;
                }
            },
            None => {},
        }
        match &self.right {
            Some(r) => {
                if r.max > self.max {
                    self.max = r.max;
                }
            },
            None => {},
        }
    }

    /// Inserts an entry below this node: to the left when its low end is smaller
    /// than this node's, else to the right.
    fn insert(&mut self, interval: Interval, data: D)
        requires
            old(self).wf(),
            interval.lo() <= interval.hi(),
        ensures
            final(self).wf(),
            final(self).entries() == insert_by_low(old(self).entries(), (interval, data)),
            final(self).max >= interval.hi(),
            final(self).max >= old(self).max,
            final(self).max == old(self).max || final(self).max == interval.hi(),
        decreases old(self).entries().len(),
    {
        let ghost s0 = *self;
        let ghost l0 = subtree_entries(self.left);
        let ghost r0 = subtree_entries(self.right);
        let ghost me = (self.interval, self.data);
        let ghost e = (interval, data);
        proof {
            assert(subtree_wf(self.left) && subtree_wf(self.right));
            assert(s0.max >= s0.interval.hi());
            assert(s0.max == s0.interval.hi() || subtree_max(s0.left) == Some(s0.max) || subtree_max(s0.right) == Some(s0.max));
            assert(subtree_max(s0.left) matches Some(m) ==> m <= s0.max);
            assert(subtree_max(s0.right) matches Some(m) ==> m <= s0.max);
        }
        proof {
            assert(self.entries() == l0 + seq![me] + r0);
        }
        let ghost mut new_cm: i64 = 0;
        if interval.low < self.interval.low {
            let mut child = None;
            std::mem::swap(&mut child, &mut self.left);
            match child {
                Some(mut b) => {
                    let ghost old_child_max = b.max;
                    proof {
                        assert(b.entries() == l0);
                        assert(l0.len() < (l0 + seq![me] + r0).len());
                    }
                    b.insert(interval, data);
                    proof {
                        assert(b.max >= interval.hi() && b.max >= old_child_max && (b.max == old_child_max || b.max == interval.hi()));
                        assert(subtree_max(s0.left) == Some(old_child_max));
                        new_cm = b.max;
                    }
                    self.left = Some(b);
                },
                None => {
                    let fresh = IntervalNode::new(interval, data);
                    proof {
                        new_cm = fresh.max;
                    }
                    self.left = Some(Box::new(fresh));
                    proof {
                        assert(insert_by_low(Seq::<(Interval, D)>::empty(), e) == seq![e]);
                    }
                },
            }
            proof {
                let l1 = subtree_entries(self.left);
                assert(l1 == insert_by_low(l0, e));
                assert forall|i: int| 0 <= i < (seq![me] + r0).len() implies (#[trigger] (seq![me] + r0)[i]).0.lo() > e.0.lo() by {
                    if i > 0 {
                        assert((seq![me] + r0)[i] == r0[i - 1]);
                    }
                }
                lemma_insert_left(l0, seq![me] + r0, e);
                assert(l0 + seq![me] + r0 == l0 + (seq![me] + r0));
                assert(l1 + seq![me] + r0 == l1 + (seq![me] + r0));
                lemma_insert_contents(l0, e);
                assert forall|i: int| 0 <= i < l1.len() implies (#[trigger] l1[i]).0.lo() < self.interval.low by {
                    assert(l1.contains(l1[i]));
                    if l0.contains(l1[i]) {
                        let j = choose|j: int| 0 <= j < l0.len() && l0[j] == l1[i];
                    }
                }
            }
        } else {
            let mut child = None;
            std::mem::swap(&mut child, &mut self.right);
            match child {
                Some(mut b) => {
                    let ghost old_child_max = b.max;
                    proof {
                        assert(b.entries() == r0);
                        assert(r0.len() < (l0 + seq![me] + r0).len());
                    }
                    b.insert(interval, data);
                    proof {
                        assert(b.max >= interval.hi() && b.max >= old_child_max && (b.max == old_child_max || b.max == interval.hi()));
                        assert(subtree_max(s0.right) == Some(old_child_max));
                        new_cm = b.max;
                    }
                    self.right = Some(b);
                },
                None => {
                    let fresh = IntervalNode::new(interval, data);
                    proof {
                        new_cm = fresh.max;
                    }
                    self.right = Some(Box::new(fresh));
                    proof {
                        assert(insert_by_low(Seq::<(Interval, D)>::empty(), e) == seq![e]);
                    }
                },
            }
            proof {
                let r1 = subtree_entries(self.right);
                assert(r1 == insert_by_low(r0, e));
                assert forall|i: int| 0 <= i < (l0 + seq![me]).len() implies (#[trigger] (l0 + seq![me])[i]).0.lo() <= e.0.lo() by {
                    if i < l0.len() {
                        assert((l0 + seq![me])[i] == l0[i]);
                    }
                }
                lemma_insert_right(l0 + seq![me], r0, e);
                lemma_insert_contents(r0, e);
                assert forall|i: int| 0 <= i < r1.len() implies (#[trigger] r1[i]).0.lo() >= self.interval.low by {
                    assert(r1.contains(r1[i]));
                    if r0.contains(r1[i]) {
                        let j = choose|j: int| 0 <= j < r0.len() && r0[j] == r1[i];
                    }
                }
            }
        }
        let ghost before = *self;
        self.update_max();
        proof {
            assert(subtree_entries(self.left) == subtree_entries(before.left));
            assert(subtree_entries(self.right) == subtree_entries(before.right));
            assert(subtree_wf(self.left) && subtree_wf(self.right));
            assert(self.wf());
            if interval.low < s0.interval.low {
                assert(self.right == s0.right);
                assert(subtree_max(self.left) == Some(new_cm));
                assert(new_cm >= interval.hi());
                assert(subtree_max(s0.left) == Some(new_cm) || new_cm == interval.hi());
                assert(subtree_max(s0.left) matches Some(m) ==> new_cm >= m);
            } else {
                assert(self.left == s0.left);
                assert(subtree_max(self.right) == Some(new_cm));
                assert(new_cm >= interval.hi());
                assert(subtree_max(s0.right) == Some(new_cm) || new_cm == interval.hi());
                assert(subtree_max(s0.right) matches Some(m) ==> new_cm >= m);
            }
        }
    }

    /// Appends to `results`, in order, the data of the entries below this node
    /// whose interval lies within `interval`. A left subtree whose largest high end
    /// is below `interval`'s low end is skipped, and so is a right subtree when this
    /// node starts after `interval` ends.
    fn query(&self, interval: &Interval, results: &mut Vec<D>)
        requires
            self.wf(),
        ensures
            final(results)@ == old(results)@ + contained(self.entries(), *interval),
        decreases self.entries().len(),
    {
        let ghost l0 = subtree_entries(self.left);
        let ghost r0 = subtree_entries(self.right);
        let ghost me = (self.interval, self.data);
        let ghost base = results@;
        proof {
            assert(self.entries() == l0 + seq![me] + r0);
            lemma_subtree_bounds(self.left);
            lemma_subtree_bounds(self.right);
        }
        match &self.left {
            Some(left) => {
                if left.max >= interval.low {
                    proof {
                        assert(left.entries() == l0);
                        assert(l0.len() < (l0 + seq![me] + r0).len());
                    }
                    left.query(interval, results);
                } else {
                    proof {
                        assert forall|i: int| 0 <= i < l0.len() implies !(#[trigger] l0[i]).0.within(*interval) by {}
                        lemma_contained_none(l0, *interval);
                        assert(results@ == base + Seq::<D>::empty());
                    }
                }
            },
            None => {
                proof {
                    assert(l0 == Seq::<(Interval, D)>::empty());
                    assert(results@ == base + Seq::<D>::empty());
                }
            },
        }
        let ghost after_left = results@;
        if self.interval.is_contained_in(interval) {
            results.push(self.data);
        }
        proof {
            assert(contained(seq![me], *interval) == if me.0.within(*interval) { seq![me.1] } else { Seq::<D>::empty() }) by {
                assert(seq![me].drop_last() == Seq::<(Interval, D)>::empty());
                assert(contained(Seq::<(Interval, D)>::empty(), *interval) == Seq::<D>::empty());
                assert(Seq::<D>::empty().push(me.1) == seq![me.1]);
            }
        }
        let ghost after_me = results@;
        match &self.right {
            Some(right) => {
                if self.interval.low <= interval.high {
                    proof {
                        assert(right.entries() == r0);
                        assert(r0.len() < (l0 + seq![me] + r0).len());
                    }
                    right.query(interval, results);
                } else {
                    proof {
                        assert forall|i: int| 0 <= i < r0.len() implies !(#[trigger] r0[i]).0.within(*interval) by {}
                        lemma_contained_none(r0, *interval);
                        assert(results@ == after_me + Seq::<D>::empty());
                    }
                }
            },
            None => {
                proof {
                    assert(r0 == Seq::<(Interval, D)>::empty());
                    assert(results@ == after_me + Seq::<D>::empty());
                }
            },
        }
        proof {
            lemma_contained_concat(l0, seq![me], *interval);
            lemma_contained_concat(l0 + seq![me], r0, *interval);
        }
    }
}

/// An interval tree: entries ordered by low end, each node recording the largest
/// high end below it, so that a search for intervals within a given one can skip
/// whole subtrees.
#[derive(Debug)]
pub struct IntervalTree<D> {
    root: Option<Box<IntervalNode<D>>>,
}

impl<D: Copy> IntervalTree<D> {
    /// The entries, ordered by low end (entries with equal low ends in order of insertion).
    pub closed spec fn entries(self) -> Seq<(Interval, D)> {
        subtree_entries(self.root)
    }

    /// Every node of the tree is well formed.
    pub closed spec fn wf(self) -> bool {
        subtree_wf(self.root)
    }

    /// An empty tree.
    pub fn new() -> (r: IntervalTree<D>)
        ensures
            r.wf(),
            r.entries() == Seq::<(Interval, D)>::empty(),
    {
        IntervalTree { root: None }
    }

    /// Inserts an entry; it follows the entries whose low end is at most its own.
    pub fn insert(&mut self, interval: Interval, data: D)
        requires
            old(self).wf(),
        ensures
            final(self).wf(),
            final(self).entries() == insert_by_low(old(self).entries(), (interval, data)),
    {
        proof {
            use_type_invariant(&interval);
        }
        let mut root = None;
        std::mem::swap(&mut root, &mut self.root);
        match root {
            Some(mut b) => {
                b.insert(interval, data);
                self.root = Some(b);
            },
            None => {
                self.root = Some(Box::new(IntervalNode::new(interval, data)));
                proof {
                    assert(insert_by_low(Seq::<(Interval, D)>::empty(), (interval, data)) == seq![(interval, data)]);
                }
            },
        }
    }

    /// The data of the entries whose interval lies within `interval`, ordered by low end.
    pub fn query(&self, interval: &Interval) -> (r: QueryIterator<D>)
        requires
            self.wf(),
        ensures
            r.items@ == contained(self.entries(), *interval),
            r.pos == 0,
    {
        let mut results: Vec<D> = Vec::new();
        match &self.root {
            Some(root) => {
                root.query(interval, &mut results);
                assert(results@ == Seq::<D>::empty() + contained(self.entries(), *interval));
            },
            None => {},
        }
        QueryIterator { items: results, pos: 0 }
    }

    /// Removes every entry.
    pub fn clear(&mut self)
        ensures
            final(self).wf(),
            final(self).entries() == Seq::<(Interval, D)>::empty(),
    {
        self.root = None;
    }
}

/// The result of a query: the matching data, handed out one at a time.
pub struct QueryIterator<D> {
    pub items: Vec<D>,
    pub pos: usize,
}

impl<D: Copy> QueryIterator<D> {
    /// The next item, if any is left.
    pub fn next(&mut self) -> (r: Option<D>)
        ensures
            old(self).pos < old(self).items@.len() ==> r == Some(old(self).items@[old(self).pos as int])
                && final(self).pos == old(self).pos + 1,
            old(self).pos >= old(self).items@.len() ==> r is None && final(self).pos == old(self).pos,
            final(self).items == old(self).items,
    {
        if self.pos < self.items.len() {
            let item = self.items[self.pos];
            self.pos = self.pos + 1;
            Some(item)
        } else {
            None
        }
    }

    /// The items not yet handed out, in order.
    pub fn collect_vec(self) -> (r: Vec<D>)
        ensures
            self.pos <= self.items@.len() ==> r@ == self.items@.subrange(self.pos as int, self.items@.len() as int),
    {
        let mut out: Vec<D> = Vec::new();
        let mut i: usize = self.pos;
        while i < self.items.len()
            invariant
                self.pos <= i <= self.items@.len() || (i == self.pos && self.pos > self.items@.len()),
                out@ == self.items@.subrange(self.pos as int, i as int) || self.pos > self.items@.len(),
            decreases self.items@.len() - i,
        {
            out.push(self.items[i]);
            i += 1;
        }
        out
    }
}

} // verus!
