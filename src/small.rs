//! Short inline lists from smallvec: the boxes of one tile's collision
//! shape, and the crossings of one ray step.
use smallvec::SmallVec;
use vstd::prelude::*;
use crate::geometry::Aabb;
use crate::ray::RayIntersection;

verus! {

/// The boxes of one collision shape, stored inline for the usual single box.
#[verifier::external_body]
#[derive(Debug)]
pub struct ShapeList {
    items: SmallVec<[Aabb; 1]>,
}

/// The boxes a shape list holds, in order.
pub uninterp spec fn shape_items(v: ShapeList) -> Seq<Aabb>;

/// Relies on `SmallVec::from_vec`: the list holds the vector's items in order.
#[verifier::external_body]
pub(crate) fn shape_list(v: Vec<Aabb>) -> (r: ShapeList)
    ensures
        shape_items(r) == v@,
{
    ShapeList { items: SmallVec::from_vec(v) }
}

/// Relies on `SmallVec::len`: the number of items held.
#[verifier::external_body]
pub(crate) fn shape_count(v: &ShapeList) -> (r: usize)
    ensures
        r == shape_items(*v).len(),
{
    v.items.len()
}

/// Relies on indexing a `SmallVec`: the item at position `i`.
#[verifier::external_body]
pub(crate) fn shape_at(v: &ShapeList, i: usize) -> (r: Aabb)
    requires
        i < shape_items(*v).len(),
    ensures
        r == shape_items(*v)[i as int],
{
    v.items[i]
}

impl ShapeList {
    /// The number of boxes.
    pub fn len(&self) -> (r: usize)
        ensures
            r == shape_items(*self).len(),
    {
        shape_count(self)
    }

    /// The boxes, in order.
    pub fn to_vec(&self) -> (r: Vec<Aabb>)
        ensures
            r@ == shape_items(*self),
    {
        let n = shape_count(self);
        let mut out: Vec<Aabb> = Vec::new();
        let mut i: usize = 0;
        while i < n
            invariant
                n == shape_items(*self).len(),
                i <= n,
                out@ == shape_items(*self).subrange(0, i as int),
            decreases n - i,
        {
            out.push(shape_at(self, i));
            i += 1;
            assert(out@ =~= shape_items(*self).subrange(0, i as int));
        }
        assert(out@ =~= shape_items(*self));
        out
    }
}

/// The crossings of one ray step: at most one per axis, stored inline.
#[verifier::external_body]
#[derive(Debug)]
pub struct Crossings {
    items: SmallVec<[RayIntersection; 2]>,
}

/// The crossings a list holds, in order.
pub uninterp spec fn crossing_items(v: Crossings) -> Seq<RayIntersection>;

/// Relies on `SmallVec::new`: a new list holds nothing.
#[verifier::external_body]
pub(crate) fn crossings_new() -> (r: Crossings)
    ensures
        crossing_items(r).len() == 0,
{
    Crossings { items: SmallVec::new() }
}

/// Relies on `SmallVec::push`: `x` is appended after the items held.
#[verifier::external_body]
pub(crate) fn crossings_push(v: &mut Crossings, x: RayIntersection)
    ensures
        crossing_items(*final(v)) == crossing_items(*old(v)).push(x),
{
    v.items.push(x)
}

/// Relies on `SmallVec::len`: the number of items held.
#[verifier::external_body]
pub(crate) fn crossings_count(v: &Crossings) -> (r: usize)
    ensures
        r == crossing_items(*v).len(),
{
    v.items.len()
}

/// Relies on indexing a `SmallVec`: the item at position `i`.
#[verifier::external_body]
pub(crate) fn crossing_at(v: &Crossings, i: usize) -> (r: RayIntersection)
    requires
        i < crossing_items(*v).len(),
    ensures
        r == crossing_items(*v)[i as int],
{
    v.items[i]
}

impl Crossings {
    /// The number of crossings.
    pub fn len(&self) -> (r: usize)
        ensures
            r == crossing_items(*self).len(),
    {
        crossings_count(self)
    }

    /// The crossing at position `i`.
    pub fn get(&self, i: usize) -> (r: RayIntersection)
        requires
            i < crossing_items(*self).len(),
        ensures
            r == crossing_items(*self)[i as int],
    {
        crossing_at(self, i)
    }
}

} // verus!
