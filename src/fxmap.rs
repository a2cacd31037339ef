//! The `FxHashMap` from segment or path text to an index, as the static table
//! and the trie nodes use it.
use vstd::prelude::*;
use rustc_hash::FxHashMap;

verus! {

/// `rustc_hash::FxBuildHasher`, the hasher of `FxHashMap`, held opaque.
#[verifier::external_type_specification]
#[verifier::external_body]
pub struct ExFxBuildHasher(rustc_hash::FxBuildHasher);

/// The entries of an index map, by the text of their keys.
pub uninterp spec fn fx_entries(m: FxHashMap<String, usize>) -> Map<Seq<char>, usize>;

/// Relies on `FxHashMap::default` (std's `HashMap` with rustc_hash's hasher):
/// a new map holds no entry.
#[verifier::external_body]
pub(crate) fn fx_new() -> (r: FxHashMap<String, usize>)
    ensures
        forall|k: Seq<char>| !fx_entries(r).contains_key(k),
{
    FxHashMap::default()
}

/// Relies on `HashMap::get` with a `&str` key, which looks up the `String` key
/// of the same text.
#[verifier::external_body]
pub(crate) fn fx_get(m: &FxHashMap<String, usize>, key: &str) -> (r: Option<usize>)
    ensures
        r == (if fx_entries(*m).contains_key(key@) {
            Some(fx_entries(*m)[key@])
        } else {
            None::<usize>
        }),
{
    m.get(key).copied()
}

/// Relies on `HashMap::insert`: the key now maps to `value`; other keys keep
/// their entries.
#[verifier::external_body]
pub(crate) fn fx_insert(m: &mut FxHashMap<String, usize>, key: String, value: usize)
    ensures
        fx_entries(*final(m)) == fx_entries(*old(m)).insert(key@, value),
{
    m.insert(key, value);
}

} // verus!
