//! The hash tables of the `fxhash` crate, as far as the build graph uses them: sets of numbers
//! and a map from texts to numbers.

use fxhash::{FxHashMap, FxHashSet};
use vstd::prelude::*;

verus! {

/// The hasher of `fxhash`, which its tables carry as a type.
#[verifier::external_type_specification]
#[verifier::external_body]
pub struct ExFxHasher(fxhash::FxHasher);

/// std's way to make hashers of a given type, which the tables of `fxhash` carry as a type.
#[verifier::external_type_specification]
#[verifier::external_body]
#[verifier::reject_recursive_types(H)]
pub struct ExBuildHasherDefault<H>(std::hash::BuildHasherDefault<H>);

/// `FxHashSet::insert`: puts a number into the set and says whether it is new there.
#[verifier::external_body]
pub(crate) fn set_insert(set: &mut FxHashSet<u32>, x: u32) -> (new: bool)
    ensures
        final(set)@ == old(set)@.insert(x),
        new == !old(set)@.contains(x),
{
    set.insert(x)
}

/// `FxHashSet::remove`: takes a number out of the set and says whether it was there.
#[verifier::external_body]
pub(crate) fn set_remove(set: &mut FxHashSet<u32>, x: u32) -> (was_there: bool)
    ensures
        final(set)@ == old(set)@.remove(x),
        was_there == old(set)@.contains(x),
{
    set.remove(&x)
}

/// `FxHashSet::contains`: whether a number is in the set.
#[verifier::external_body]
pub(crate) fn set_contains(set: &FxHashSet<u32>, x: u32) -> (has: bool)
    ensures
        has == set@.contains(x),
{
    set.contains(&x)
}

/// `FxHashSet::len`: how many numbers are in the set.
#[verifier::external_body]
pub(crate) fn set_len(set: &FxHashSet<u32>) -> (n: usize)
    ensures
        n == set@.len(),
{
    set.len()
}

/// `FxHashSet::iter`: the numbers in the set, each once. Their order is left open.
#[verifier::external_body]
pub(crate) fn set_items(set: &FxHashSet<u32>) -> (items: Vec<u32>)
    ensures
        items@.no_duplicates(),
        items@.to_set() == set@,
{
    set.iter().copied().collect()
}

/// What a map from texts to numbers holds.
pub uninterp spec fn index_entries(index: FxHashMap<String, u32>) -> Map<Seq<char>, u32>;

/// `FxHashMap::default`: a map with nothing in it.
#[verifier::external_body]
pub(crate) fn new_index() -> (index: FxHashMap<String, u32>)
    ensures
        index_entries(index).dom() == Set::<Seq<char>>::empty(),
{
    FxHashMap::default()
}

/// `FxHashMap::insert`: gives a key a number, and gives back the one that it had.
#[verifier::external_body]
pub(crate) fn index_insert(index: &mut FxHashMap<String, u32>, key: String, x: u32) -> (had: Option<
    u32,
>)
    ensures
        index_entries(*final(index)) == index_entries(*old(index)).insert(key@, x),
        had == index_entries(*old(index)).get(key@),
{
    index.insert(key, x)
}

/// `FxHashMap::remove`: takes a key out, and gives back the number that it had.
#[verifier::external_body]
pub(crate) fn index_remove(index: &mut FxHashMap<String, u32>, key: &str) -> (had: Option<u32>)
    ensures
        index_entries(*final(index)) == index_entries(*old(index)).remove(key@),
        had == index_entries(*old(index)).get(key@),
{
    index.remove(key)
}

/// `FxHashMap::get`: the number of a key.
#[verifier::external_body]
pub(crate) fn index_get(index: &FxHashMap<String, u32>, key: &str) -> (x: Option<u32>)
    ensures
        x == index_entries(*index).get(key@),
{
    index.get(key).copied()
}

/// `FxHashMap::len`: how many keys there are.
#[verifier::external_body]
pub(crate) fn index_len(index: &FxHashMap<String, u32>) -> (n: usize)
    ensures
        n == index_entries(*index).dom().len(),
{
    index.len()
}

/// `FxHashMap::keys`: the keys, each once. Their order is left open.
#[verifier::external_body]
pub(crate) fn index_keys(index: &FxHashMap<String, u32>) -> (keys: Vec<String>)
    ensures
        keys.deep_view().no_duplicates(),
        keys.deep_view().to_set() == index_entries(*index).dom(),
{
    index.keys().cloned().collect()
}

} // verus!
