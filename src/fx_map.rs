// fxhash's hash map, as used by the index and the facet counters.
use vstd::prelude::*;
use fxhash::FxHashMap;
use itertools::Itertools;

verus! {

/// fxhash's hasher, carried opaquely inside `FxHashMap`.
#[verifier::external_type_specification]
#[verifier::external_body]
pub struct ExFxHasher(fxhash::FxHasher);

/// std's builder of default hashers, the build-hasher parameter of `FxHashMap`.
#[verifier::external_type_specification]
#[verifier::external_body]
#[verifier::reject_recursive_types(H)]
pub struct ExBuildHasherDefault<H>(std::hash::BuildHasherDefault<H>);

/// Relies on `FxHashMap::default` (a `std::collections::HashMap` with fxhash's
/// hasher): a new map holds no keys.
#[verifier::external_body]
pub fn fx_new<V>() -> (r: FxHashMap<u64, V>)
    ensures
        r@.dom() == Set::<u64>::empty(),
{
    FxHashMap::default()
}

/// Relies on `HashMap::get` under fxhash's hasher: the value stored for `k`, if any.
#[verifier::external_body]
pub fn fx_get<V>(m: &FxHashMap<u64, V>, k: u64) -> (r: Option<&V>)
    ensures
        match r {
            Some(v) => m@.contains_key(k) && *v == m@[k],
            None => !m@.contains_key(k),
        },
{
    m.get(&k)
}

/// Relies on `itertools::Itertools::sorted` over the keys of a map: every key once,
/// in ascending order.
#[verifier::external_body]
pub fn fx_sorted_keys<V>(m: &FxHashMap<u64, V>) -> (r: Vec<u64>)
    ensures
        forall|i: int, j: int| 0 <= i < j < r@.len() ==> r@[i] < r@[j],
        forall|i: int| 0 <= i < r@.len() ==> m@.contains_key(#[trigger] r@[i]),
        forall|k: u64| m@.contains_key(k) ==> r@.contains(k),
{
    m.keys().copied().sorted().collect()
}

/// Relies on `HashMap::insert` under fxhash's hasher: `k` now maps to `v`.
#[verifier::external_body]
pub fn fx_insert<V>(m: &mut FxHashMap<u64, V>, k: u64, v: V)
    ensures
        final(m)@ == old(m)@.insert(k, v),
{
    m.insert(k, v);
}

/// Relies on `HashMap::remove` under fxhash's hasher: takes out the value of `k`.
#[verifier::external_body]
pub fn fx_remove<V>(m: &mut FxHashMap<u64, V>, k: u64) -> (r: Option<V>)
    ensures
        final(m)@ == old(m)@.remove(k),
        r == (if old(m)@.contains_key(k) { Some(old(m)@[k]) } else { None::<V> }),
{
    m.remove(&k)
}

/// Relies on `HashMap::clear` under fxhash's hasher: no key is left.
#[verifier::external_body]
pub fn fx_clear<V>(m: &mut FxHashMap<u64, V>)
    ensures
        final(m)@.dom() == Set::<u64>::empty(),
{
    m.clear();
}

} // verus!
