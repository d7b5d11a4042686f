//! The world's chunk index: chunk keys to chunk slots, held in
//! rustc-hash's `FxHashMap`.
use rustc_hash::FxHashMap;
use vstd::prelude::*;

verus! {

/// Map from chunk keys to chunk slots, held in rustc-hash's `FxHashMap`.
#[verifier::external_body]
#[derive(Debug)]
pub struct ChunkIndex {
    map: FxHashMap<i128, usize>,
}

/// The entries of the index.
pub uninterp spec fn index_entries(m: ChunkIndex) -> Map<i128, usize>;

/// Relies on `FxHashMap::default` (std's `HashMap::default` with the Fx
/// hasher): a new map holds no entries.
#[verifier::external_body]
pub(crate) fn index_new() -> (r: ChunkIndex)
    ensures
        forall|k: i128| !index_entries(r).contains_key(k),
{
    ChunkIndex { map: FxHashMap::default() }
}

/// Relies on std's `HashMap::get`: the value stored under `k`, if any.
#[verifier::external_body]
pub(crate) fn index_get(m: &ChunkIndex, k: i128) -> (r: Option<usize>)
    ensures
        r == if index_entries(*m).contains_key(k) {
            Some(index_entries(*m)[k])
        } else {
            None
        },
{
    m.map.get(&k).copied()
}

/// Relies on std's `HashMap::insert`: `k` maps to `v` afterwards, every
/// other entry is kept.
#[verifier::external_body]
pub(crate) fn index_insert(m: &mut ChunkIndex, k: i128, v: usize)
    ensures
        index_entries(*final(m)) == index_entries(*old(m)).insert(k, v),
{
    m.map.insert(k, v);
}

/// Relies on std's `HashMap::remove`: `k` has no entry afterwards, every
/// other entry is kept.
#[verifier::external_body]
pub(crate) fn index_remove(m: &mut ChunkIndex, k: i128)
    ensures
        index_entries(*final(m)) == index_entries(*old(m)).remove(k),
{
    m.map.remove(&k);
}

} // verus!
