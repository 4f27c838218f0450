// The fixed region hierarchy.
use vstd::prelude::*;

verus! {

/// Number of regions in the fixed hierarchy; ids run from 0 to 124.
pub const REGION_COUNT: usize = 125;

/// Parent of region `r` (for `0 < r < 125`) in the fixed geographic hierarchy.
/// The hierarchy is numbered breadth first, so the children of each region form
/// one run of consecutive ids, and every parent id is smaller than its children.
pub open spec fn region_parent(r: int) -> int {
    if r <= 6 {
        0
    } else if r <= 9 {
        1
    } else if r <= 11 {
        2
    } else if r <= 14 {
        3
    } else if r <= 16 {
        4
    } else if r <= 18 {
        5
    } else if r <= 20 {
        6
    } else if r <= 23 {
        7
    } else if r <= 28 {
        8
    } else if r <= 30 {
        9
    } else if r <= 35 {
        10
    } else if r <= 37 {
        11
    } else if r <= 39 {
        12
    } else if r <= 42 {
        13
    } else if r <= 44 {
        14
    } else if r <= 46 {
        15
    } else if r <= 48 {
        16
    } else if r <= 50 {
        17
    } else if r <= 52 {
        18
    } else if r <= 55 {
        19
    } else if r <= 57 {
        20
    } else if r <= 59 {
        21
    } else if r <= 61 {
        22
    } else if r <= 63 {
        23
    } else if r <= 65 {
        24
    } else if r <= 67 {
        25
    } else if r <= 69 {
        26
    } else if r <= 71 {
        27
    } else if r <= 73 {
        28
    } else if r <= 75 {
        29
    } else if r <= 77 {
        30
    } else if r <= 81 {
        31
    } else if r <= 83 {
        32
    } else if r <= 85 {
        33
    } else if r <= 87 {
        34
    } else if r <= 89 {
        35
    } else if r <= 91 {
        36
    } else if r <= 93 {
        37
    } else if r <= 95 {
        38
    } else if r <= 97 {
        39
    } else if r <= 99 {
        40
    } else if r <= 100 {
        41
    } else if r <= 102 {
        42
    } else if r <= 103 {
        43
    } else if r <= 105 {
        44
    } else if r <= 107 {
        45
    } else if r <= 109 {
        46
    } else if r <= 111 {
        47
    } else if r <= 113 {
        48
    } else if r <= 115 {
        49
    } else if r <= 117 {
        50
    } else if r <= 118 {
        51
    } else if r <= 120 {
        52
    } else if r <= 121 {
        53
    } else if r <= 122 {
        54
    } else {
        55
    }
}

/// `r` lies in the subtree rooted at `root` (a region is in its own subtree).
pub open spec fn in_subtree(r: int, root: int) -> bool
    decreases r,
{
    if r == root {
        true
    } else if r <= 0 || r >= 125 {
        false
    } else {
        in_subtree(region_parent(r), root)
    }
}

/// Every region of the hierarchy lies under the root.
pub proof fn lemma_all_under_root(r: int)
    requires
        0 <= r < 125,
    ensures
        in_subtree(r, 0),
    decreases r,
{
    if r != 0 {
        lemma_all_under_root(region_parent(r));
    }
}

/// A parent's id is below its child's.
pub proof fn lemma_parent_below(r: int)
    requires
        0 < r < 125,
    ensures
        0 <= region_parent(r) < r,
{
}

/// A region lies at or below the root of any subtree holding it.
pub proof fn lemma_subtree_below(r: int, s: int)
    requires
        0 <= r < 125,
        in_subtree(r, s),
    ensures
        0 <= s <= r,
    decreases r,
{
    if r != s {
        lemma_parent_below(r);
        lemma_subtree_below(region_parent(r), s);
    }
}

/// Subtrees nest.
pub proof fn lemma_subtree_transitive(r: int, m: int, s: int)
    requires
        0 <= r < 125,
        in_subtree(r, m),
        in_subtree(m, s),
    ensures
        in_subtree(r, s),
    decreases r,
{
    if r != m {
        lemma_parent_below(r);
        lemma_subtree_transitive(region_parent(r), m, s);
    }
}

/// A child lies in its parent's subtree.
pub proof fn lemma_child_in_subtree(c: int)
    requires
        0 < c < 125,
    ensures
        in_subtree(c, region_parent(c)),
{
    lemma_parent_below(c);
    assert(in_subtree(region_parent(c), region_parent(c)));
}

/// A region strictly below `s` lies below one of `s`'s children.
pub proof fn lemma_below_a_child(r: int, s: int) -> (c: int)
    requires
        0 <= r < 125,
        in_subtree(r, s),
        r != s,
    ensures
        0 < c < 125,
        region_parent(c) == s,
        in_subtree(r, c),
    decreases r,
{
    lemma_parent_below(r);
    if region_parent(r) == s {
        r
    } else {
        let c = lemma_below_a_child(region_parent(r), s);
        c
    }
}

/// Two subtrees that share a region are nested one in the other.
pub proof fn lemma_subtrees_nest(r: int, a: int, b: int)
    requires
        0 <= r < 125,
        in_subtree(r, a),
        in_subtree(r, b),
    ensures
        in_subtree(a, b) || in_subtree(b, a),
    decreases r,
{
    if r != a && r != b {
        lemma_parent_below(r);
        lemma_subtrees_nest(region_parent(r), a, b);
    }
}

/// The subtrees of two distinct children of one region share no region.
pub proof fn lemma_siblings_disjoint(r: int, c1: int, c2: int)
    requires
        0 <= r < 125,
        0 < c1 < 125,
        0 < c2 < 125,
        c1 != c2,
        region_parent(c1) == region_parent(c2),
    ensures
        !(in_subtree(r, c1) && in_subtree(r, c2)),
{
    if in_subtree(r, c1) && in_subtree(r, c2) {
        lemma_subtrees_nest(r, c1, c2);
        lemma_parent_below(c1);
        lemma_parent_below(c2);
        if in_subtree(c1, c2) {
            lemma_subtree_below(region_parent(c1), c2);
        } else {
            lemma_subtree_below(region_parent(c2), c1);
        }
    }
}

/// The parent of region `r`, for `0 < r < 125`.
pub fn parent_region(r: u8) -> (p: u8)
    requires
        0 < r < 125,
    ensures
        p as int == region_parent(r as int),
        p < r,
{
    if r <= 6 {
        0
    } else if r <= 9 {
        1
    } else if r <= 11 {
        2
    } else if r <= 14 {
        3
    } else if r <= 16 {
        4
    } else if r <= 18 {
        5
    } else if r <= 20 {
        6
    } else if r <= 23 {
        7
    } else if r <= 28 {
        8
    } else if r <= 30 {
        9
    } else if r <= 35 {
        10
    } else if r <= 37 {
        11
    } else if r <= 39 {
        12
    } else if r <= 42 {
        13
    } else if r <= 44 {
        14
    } else if r <= 46 {
        15
    } else if r <= 48 {
        16
    } else if r <= 50 {
        17
    } else if r <= 52 {
        18
    } else if r <= 55 {
        19
    } else if r <= 57 {
        20
    } else if r <= 59 {
        21
    } else if r <= 61 {
        22
    } else if r <= 63 {
        23
    } else if r <= 65 {
        24
    } else if r <= 67 {
        25
    } else if r <= 69 {
        26
    } else if r <= 71 {
        27
    } else if r <= 73 {
        28
    } else if r <= 75 {
        29
    } else if r <= 77 {
        30
    } else if r <= 81 {
        31
    } else if r <= 83 {
        32
    } else if r <= 85 {
        33
    } else if r <= 87 {
        34
    } else if r <= 89 {
        35
    } else if r <= 91 {
        36
    } else if r <= 93 {
        37
    } else if r <= 95 {
        38
    } else if r <= 97 {
        39
    } else if r <= 99 {
        40
    } else if r <= 100 {
        41
    } else if r <= 102 {
        42
    } else if r <= 103 {
        43
    } else if r <= 105 {
        44
    } else if r <= 107 {
        45
    } else if r <= 109 {
        46
    } else if r <= 111 {
        47
    } else if r <= 113 {
        48
    } else if r <= 115 {
        49
    } else if r <= 117 {
        50
    } else if r <= 118 {
        51
    } else if r <= 120 {
        52
    } else if r <= 121 {
        53
    } else if r <= 122 {
        54
    } else {
        55
    }
}

} // verus!
