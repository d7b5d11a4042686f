//! The registry's name index: material names to ids, held in rustc-hash's
//! `FxHashMap`.
use rustc_hash::FxHashMap;
use vstd::prelude::*;
use crate::material::MaterialId;

verus! {

/// Map from material names to ids, held in rustc-hash's `FxHashMap`.
#[verifier::external_body]
#[derive(Debug)]
pub struct NameIndex {
    map: FxHashMap<String, MaterialId>,
}

/// The entries of the index, by the characters of each name.
pub uninterp spec fn name_entries(m: NameIndex) -> Map<Seq<char>, MaterialId>;

/// Relies on `FxHashMap::default` (std's `HashMap::default` with the Fx
/// hasher): a new map holds no entries.
#[verifier::external_body]
pub(crate) fn names_new() -> (r: NameIndex)
    ensures
        forall|n: Seq<char>| !name_entries(r).contains_key(n),
{
    NameIndex { map: FxHashMap::default() }
}

/// Relies on std's `HashMap::get`, looked up by `&str` through
/// `String: Borrow<str>`: the id stored under a name with the same
/// characters, if any.
#[verifier::external_body]
pub(crate) fn names_get(m: &NameIndex, name: &str) -> (r: Option<MaterialId>)
    ensures
        r == if name_entries(*m).contains_key(name@) {
            Some(name_entries(*m)[name@])
        } else {
            None
        },
{
    m.map.get(name).copied()
}

/// Relies on std's `HashMap::insert` (of a copy of `name`): the name maps
/// to `id` afterwards, replacing any earlier id; every other entry is kept.
#[verifier::external_body]
pub(crate) fn names_insert(m: &mut NameIndex, name: &String, id: MaterialId)
    ensures
        name_entries(*final(m)) == name_entries(*old(m)).insert(name@, id),
{
    m.map.insert(name.clone(), id);
}

} // verus!
