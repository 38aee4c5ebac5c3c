//! The hash map of `rustc_hash` that the concatenation uses to number sources and
//! names, behind a few trusted operations.
use rustc_hash::{FxBuildHasher, FxHashMap};
use vstd::prelude::*;

verus! {

#[verifier::external_type_specification]
#[verifier::external_body]
pub struct ExFxBuildHasher(FxBuildHasher);

/// The entries of an `FxHashMap` from strings to indices, by the keys' characters.
pub uninterp spec fn fx_contents(m: FxHashMap<String, u32>) -> Map<Seq<char>, u32>;

/// The map with no entries.
pub open spec fn no_entries() -> Map<Seq<char>, u32> {
    Map::empty()
}

/// `FxHashMap::default()`: a map with no entries.
#[verifier::external_body]
pub fn fx_new() -> (r: FxHashMap<String, u32>)
    ensures
        fx_contents(r) == no_entries(),
{
    FxHashMap::default()
}

/// `HashMap::get` on an `FxHashMap`: the value stored under the key with the
/// characters of `k`, if any.
#[verifier::external_body]
pub fn fx_get(m: &FxHashMap<String, u32>, k: &str) -> (r: Option<u32>)
    ensures
        match r {
            Some(v) => fx_contents(*m).dom().contains(k@) && v == fx_contents(*m)[k@],
            None => !fx_contents(*m).dom().contains(k@),
        },
{
    m.get(k).copied()
}

/// `HashMap::insert` on an `FxHashMap`: `k` now maps to `v`, every other entry stays.
#[verifier::external_body]
pub fn fx_insert(m: &mut FxHashMap<String, u32>, k: String, v: u32)
    ensures
        fx_contents(*final(m)) == fx_contents(*old(m)).insert(k@, v),
{
    m.insert(k, v);
}

/// `HashMap::len` on an `FxHashMap`: the number of entries.
#[verifier::external_body]
pub fn fx_len(m: &FxHashMap<String, u32>) -> (r: usize)
    ensures
        r == fx_contents(*m).len(),
{
    m.len()
}

} // verus!
