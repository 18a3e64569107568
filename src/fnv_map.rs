//! Hash maps keyed by `usize` that hash with the FNV function of the `fnv` crate.
use vstd::prelude::*;

verus! {

#[verifier::external_type_specification]
#[verifier::external_body]
pub struct ExFnvHasher(fnv::FnvHasher);

#[verifier::external_type_specification]
#[verifier::external_body]
#[verifier::reject_recursive_types(H)]
pub struct ExBuildHasherDefault<H>(std::hash::BuildHasherDefault<H>);

/// A `HashMap` from `usize` keys that uses `fnv::FnvHasher`.
pub type FnvMap<V> = std::collections::HashMap<usize, V, std::hash::BuildHasherDefault<fnv::FnvHasher>>;

/// Relies on `HashMap::with_capacity_and_hasher` (with a default-built
/// `fnv::FnvHasher`): the new map holds no entry.
#[verifier::external_body]
pub(crate) fn fnv_map_with_capacity<V>(capacity: usize) -> (r: FnvMap<V>)
    ensures
        r@.dom().is_empty(),
{
    std::collections::HashMap::with_capacity_and_hasher(capacity, std::hash::BuildHasherDefault::default())
}

/// Relies on `HashMap::insert`: afterwards `k` maps to `v` and every other key
/// keeps its value. `fnv::FnvHasher` hashes equal keys alike, which is all the
/// map needs.
#[verifier::external_body]
pub(crate) fn fnv_map_insert<V>(m: &mut FnvMap<V>, k: usize, v: V)
    ensures
        final(m)@ == old(m)@.insert(k, v),
{
    m.insert(k, v);
}

/// Relies on `HashMap`'s `Index` impl: it returns the value stored under a
/// present key (and panics on an absent one, which `requires` rules out).
#[verifier::external_body]
pub(crate) fn fnv_map_get<V: Copy>(m: &FnvMap<V>, k: usize) -> (v: V)
    requires
        m@.contains_key(k),
    ensures
        v == m@[k],
{
    m[&k]
}

} // verus!
