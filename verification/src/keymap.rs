//! Fast hash maps with integer keys.

use rustc_hash::FxHashMap;
use vstd::prelude::*;

verus! {

/// The hasher of an [`FxHashMap`].
#[verifier::external_type_specification]
#[verifier::external_body]
pub struct ExFxBuildHasher(rustc_hash::FxBuildHasher);

/// `HashMap::get` of a map that hashes with `rustc_hash::FxHasher`, which hashes
/// equal integers alike: the value stored under `k`, if there is one.
#[verifier::external_body]
pub(crate) fn fx_get<V: Copy>(m: &FxHashMap<u64, V>, k: u64) -> (r: Option<V>)
    ensures
        r == fx_value(m@, k),
{
    m.get(&k).copied()
}

/// `HashMap::insert` of such a map: afterwards `v` is stored under `k`, the rest
/// is as before, and the value that was stored there is returned.
#[verifier::external_body]
pub(crate) fn fx_insert<V>(m: &mut FxHashMap<u64, V>, k: u64, v: V) -> (r: Option<V>)
    ensures
        final(m)@ == old(m)@.insert(k, v),
        r == fx_value(old(m)@, k),
{
    m.insert(k, v)
}

/// `HashMap::remove` of such a map: afterwards nothing is stored under `k`, the
/// rest is as before, and the value that was stored there is returned.
#[verifier::external_body]
pub(crate) fn fx_remove<V>(m: &mut FxHashMap<u64, V>, k: u64) -> (r: Option<V>)
    ensures
        final(m)@ == old(m)@.remove(k),
        r == fx_value(old(m)@, k),
{
    m.remove(&k)
}

/// What a map stores under `k`.
pub open spec fn fx_value<V>(m: Map<u64, V>, k: u64) -> Option<V> {
    if m.contains_key(k) {
        Some(m[k])
    } else {
        None
    }
}

} // verus!
