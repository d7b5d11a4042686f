//! Sets of collider handles, held in rustc-hash's `FxHashSet`.
use rustc_hash::FxHashSet;
use vstd::prelude::*;

verus! {

/// A set of collider handles, held in rustc-hash's `FxHashSet`.
#[verifier::external_body]
#[derive(Debug)]
pub struct HandleSet {
    set: FxHashSet<usize>,
}

/// The handles a set holds.
pub uninterp spec fn set_items(s: HandleSet) -> Set<usize>;

/// Relies on `FxHashSet::default` (std's `HashSet::default` with the Fx
/// hasher): a new set is empty.
#[verifier::external_body]
pub(crate) fn set_new() -> (r: HandleSet)
    ensures
        forall|x: usize| !set_items(r).contains(x),
{
    HandleSet { set: FxHashSet::default() }
}

/// Relies on std's `HashSet::insert`: `x` is held afterwards; the result
/// says whether it was absent before.
#[verifier::external_body]
pub(crate) fn set_insert(s: &mut HandleSet, x: usize) -> (r: bool)
    ensures
        set_items(*final(s)) == set_items(*old(s)).insert(x),
        r == !set_items(*old(s)).contains(x),
{
    s.set.insert(x)
}

/// Relies on std's `HashSet::remove`: `x` is not held afterwards; the
/// result says whether it was held before.
#[verifier::external_body]
pub(crate) fn set_remove(s: &mut HandleSet, x: usize) -> (r: bool)
    ensures
        set_items(*final(s)) == set_items(*old(s)).remove(x),
        r == set_items(*old(s)).contains(x),
{
    s.set.remove(&x)
}

/// Relies on std's `HashSet::contains`.
#[verifier::external_body]
pub(crate) fn set_contains(s: &HandleSet, x: usize) -> (r: bool)
    ensures
        r == set_items(*s).contains(x),
{
    s.set.contains(&x)
}

/// Relies on std's `HashSet::drain`: every handle held, each once, in an
/// order the set chooses; the set is empty afterwards.
#[verifier::external_body]
pub(crate) fn set_drain(s: &mut HandleSet) -> (r: Vec<usize>)
    ensures
        r@.no_duplicates(),
        r@.to_set() == set_items(*old(s)),
        forall|x: usize| !set_items(*final(s)).contains(x),
{
    s.set.drain().collect()
}

} // verus!
