//! Dictionaries from labels to labels, as the renaming of vertices uses
//! them: hash maps of the standard library with the hasher of `rustc_hash`.

use rustc_hash::{FxBuildHasher, FxHashMap};
use vstd::prelude::*;

verus! {

/// The hasher builder of `rustc_hash`. Nothing of its inside is used here.
#[verifier::external_type_specification]
#[verifier::external_body]
pub struct ExFxBuildHasher(FxBuildHasher);

/// A dictionary from labels to labels.
pub type LabelMap = FxHashMap<u32, u32>;

/// The dictionary that holds nothing.
pub open spec fn no_labels() -> Map<u32, u32> {
    Map::empty()
}

/// `HashMap::with_capacity_and_hasher`, called with the hasher builder of
/// `rustc_hash`: the map that it makes holds nothing.
#[verifier::external_body]
pub(crate) fn new_hm(len: usize) -> (m: LabelMap)
    ensures
        m@ == no_labels(),
{
    FxHashMap::with_capacity_and_hasher(len, FxBuildHasher::default())
}

/// `HashMap::insert` on a map with the hasher of `rustc_hash`: afterwards
/// the key has the given value, and the other keys have theirs as before.
#[verifier::external_body]
pub(crate) fn hm_insert(m: &mut LabelMap, key: u32, value: u32)
    ensures
        final(m)@ == old(m)@.insert(key, value),
{
    m.insert(key, value);
}

/// `HashMap::get` on a map with the hasher of `rustc_hash`: the value of
/// the key, or `None` where the map does not hold the key.
#[verifier::external_body]
pub(crate) fn hm_get(m: &LabelMap, key: u32) -> (r: Option<u32>)
    ensures
        r == (if m@.contains_key(key) {
            Some(m@[key])
        } else {
            None
        }),
{
    m.get(&key).copied()
}

} // verus!
