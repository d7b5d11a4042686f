//! Swept movement of axis-aligned boxes through tiles and colliders,
//! resolved one axis at a time.
use vstd::prelude::*;
use crate::colliders::{center_chunk, covers, query_ok, ColliderId, WorldColliders};
use crate::config::{lemma_floor_div_monotone, TileLayerConfig};
use crate::geometry::{coord_ok, Aabb, Axis2, IVec2, Vec2, MAX_COORD};
use crate::material::{
    lemma_cache_survives_register, shape_box_ok, MaterialCache, MaterialId, MaterialRegistry,
    TileColliderDescriptor, AIR, MAX_MATERIALS, SHAPE_UNIT,
};
use crate::ray::{abs, between, ray_walk, tile_at_pos};
use crate::small::shape_at;
use crate::world::{cell, grows_from, TileWorld};

verus! {

/// Clearance kept between a mover and what blocks it: one hundredth of a
/// world unit.
pub const TOLERANCE: i64 = 1;

pub open spec fn min(a: int, b: int) -> int {
    if a <= b { a } else { b }
}

pub open spec fn max(a: int, b: int) -> int {
    if a >= b { a } else { b }
}

/// Distance between the mover's leading face and the blocker's facing
/// side on `axis`, for a motion of sign `d` (taken as positive at zero).
pub open spec fn gap(m: Aabb, axis: Axis2, d: int, b: Aabb) -> int {
    abs(if d < 0 { m.lo(axis) - b.hi(axis) } else { b.lo(axis) - m.hi(axis) })
}

/// How far the mover may travel toward blocker `b`: the gap less the
/// tolerance, never negative.
pub open spec fn allowed(m: Aabb, axis: Axis2, d: int, b: Aabb) -> int {
    max(gap(m, axis, d, b) - TOLERANCE, 0)
}

/// The travel distance left of `mag` after every blocker in `bs`.
pub open spec fn clamp_all(m: Aabb, axis: Axis2, d: int, mag: int, bs: Seq<Aabb>) -> int
    decreases bs.len(),
{
    if bs.len() == 0 {
        mag
    } else {
        min(clamp_all(m, axis, d, mag, bs.drop_last()), allowed(m, axis, d, bs.last()))
    }
}

/// The resolved signed displacement on `axis` for a desired displacement
/// `d` against blockers `bs`.
pub open spec fn resolve(m: Aabb, axis: Axis2, d: int, bs: Seq<Aabb>) -> int {
    let mag = clamp_all(m, axis, d, abs(d), bs);
    if d < 0 { -mag } else { mag }
}

/// The clamp is at most the start value and at most each blocker's
/// allowance, and equals one of them.
pub proof fn lemma_clamp_bounds(m: Aabb, axis: Axis2, d: int, mag: int, bs: Seq<Aabb>)
    requires
        mag >= 0,
    ensures
        0 <= clamp_all(m, axis, d, mag, bs) <= mag,
        forall|i: int| 0 <= i < bs.len() ==> clamp_all(m, axis, d, mag, bs) <= allowed(m, axis, d, #[trigger] bs[i]),
        clamp_all(m, axis, d, mag, bs) == mag || exists|i: int|
            0 <= i < bs.len() && clamp_all(m, axis, d, mag, bs) == allowed(m, axis, d, #[trigger] bs[i]),
    decreases bs.len(),
{
    if bs.len() > 0 {
        lemma_clamp_bounds(m, axis, d, mag, bs.drop_last());
        let prev = clamp_all(m, axis, d, mag, bs.drop_last());
        assert forall|i: int| 0 <= i < bs.len() implies clamp_all(m, axis, d, mag, bs) <= allowed(m, axis, d, #[trigger] bs[i]) by {
            if i < bs.len() - 1 {
                assert(bs[i] == bs.drop_last()[i]);
            }
        }
        if clamp_all(m, axis, d, mag, bs) != mag {
            if clamp_all(m, axis, d, mag, bs) == allowed(m, axis, d, bs.last()) {
                assert(bs[bs.len() - 1] == bs.last());
            } else {
                let i = choose|i: int| 0 <= i < bs.len() - 1 && prev == allowed(m, axis, d, #[trigger] bs.drop_last()[i]);
                assert(bs[i] == bs.drop_last()[i]);
            }
        }
    }
}

/// Adds `amount` to the magnitude of `v`, keeping its sign (zero counts
/// as positive).
pub fn add_magnitude(v: i64, amount: i64) -> (r: i64)
    requires
        coord_ok(v as int),
        0 <= amount <= MAX_COORD,
    ensures
        r == if v < 0 { v - amount } else { v + amount },
{
    if v < 0 { v - amount } else { v + amount }
}

/// The displacement on `axis` that a box `m` may make of the desired `d`,
/// given the boxes `blockers` found in its path: the desired distance cut
/// down to each blocker's gap less the tolerance (never below zero), with
/// the sign of `d`.
pub fn resolve_axis(m: Aabb, axis: Axis2, d: i64, blockers: &Vec<Aabb>) -> (r: i64)
    requires
        coord_ok(d as int),
    ensures
        r == resolve(m, axis, d as int, blockers@),
        abs(r as int) <= abs(d as int),
{
    let mut mag: i64 = if d < 0 { -d } else { d };
    let mut i: usize = 0;
    while i < blockers.len()
        invariant
            coord_ok(d as int),
            i <= blockers.len(),
            mag == clamp_all(m, axis, d as int, abs(d as int), blockers@.subrange(0, i as int)),
            0 <= mag <= abs(d as int),
        decreases blockers.len() - i,
    {
        let b = blockers[i];
        let diff: i128 = if d < 0 {
            m.min.get_axis(axis) as i128 - b.max.get_axis(axis) as i128
        } else {
            b.min.get_axis(axis) as i128 - m.max.get_axis(axis) as i128
        };
        let g: i128 = if diff < 0 { -diff } else { diff };
        let room: i128 = if g - (TOLERANCE as i128) > 0 { g - (TOLERANCE as i128) } else { 0 };
        if room < mag as i128 {
            mag = room as i64;
        }
        proof {
            let s = blockers@.subrange(0, i + 1);
            assert(s.drop_last() =~= blockers@.subrange(0, i as int));
            assert(s.last() == b);
        }
        i += 1;
    }
    assert(blockers@.subrange(0, blockers.len() as int) =~= blockers@);
    if d < 0 { -mag } else { mag }
}

/// A blocker ahead of the mover on the axis of motion is never entered:
/// after the resolved move the leading face stops at the blocker's facing
/// side, and a full tolerance short of it whenever the gap allowed that.
pub proof fn lemma_no_penetration(m: Aabb, axis: Axis2, d: int, bs: Seq<Aabb>, i: int)
    requires
        0 <= i < bs.len(),
        d >= 0 ==> m.hi(axis) <= bs[i].lo(axis),
        d < 0 ==> bs[i].hi(axis) <= m.lo(axis),
    ensures
        d >= 0 ==> m.hi(axis) + resolve(m, axis, d, bs) <= bs[i].lo(axis),
        d >= 0 && bs[i].lo(axis) - m.hi(axis) >= TOLERANCE ==> m.hi(axis) + resolve(m, axis, d, bs)
            <= bs[i].lo(axis) - TOLERANCE,
        d < 0 ==> m.lo(axis) + resolve(m, axis, d, bs) >= bs[i].hi(axis),
        d < 0 && m.lo(axis) - bs[i].hi(axis) >= TOLERANCE ==> m.lo(axis) + resolve(m, axis, d, bs)
            >= bs[i].hi(axis) + TOLERANCE,
{
    lemma_clamp_bounds(m, axis, d, abs(d), bs);
    assert(clamp_all(m, axis, d, abs(d), bs) <= allowed(m, axis, d, bs[i]));
}

/// Sliding into an inside corner: where a blocker on the first axis is
/// within the tolerance, that axis does not move at all; where nothing
/// blocks the second axis, it moves the full desired distance.
pub proof fn lemma_corner_slide(m: Aabb, d: Vec2, bx: Seq<Aabb>, i: int, m2: Aabb)
    requires
        0 <= i < bx.len(),
        gap(m, Axis2::X, d.x as int, bx[i]) <= TOLERANCE,
    ensures
        resolve(m, Axis2::X, d.x as int, bx) == 0,
        resolve(m2, Axis2::Y, d.y as int, Seq::<Aabb>::empty()) == d.y,
{
    lemma_clamp_bounds(m, Axis2::X, d.x as int, abs(d.x as int), bx);
    assert(allowed(m, Axis2::X, d.x as int, bx[i]) == 0);
}

/// Something a box ran into: a solid part of a tile (its coordinate,
/// material and box), or a tracked collider (its handle and box).
#[derive(Clone, Copy, Debug, PartialEq, Eq, Structural)]
pub enum AnyCollision {
    Tile(IVec2, MaterialId, Aabb),
    Collider(ColliderId, Aabb),
}

impl AnyCollision {
    pub open spec fn box_spec(self) -> Aabb {
        match self {
            AnyCollision::Tile(_, _, b) => b,
            AnyCollision::Collider(_, b) => b,
        }
    }

    /// The box of the collision.
    pub fn aabb(self) -> (r: Aabb)
        ensures
            r == self.box_spec(),
    {
        match self {
            AnyCollision::Tile(_, _, b) => b,
            AnyCollision::Collider(_, b) => b,
        }
    }
}

/// Which kinds of collision count.
#[derive(Clone, Copy, Debug, PartialEq, Eq, Structural)]
pub enum CollisionFilter {
    All,
    TilesOnly,
    CollidersOnly,
}

impl CollisionFilter {
    pub open spec fn admits(self, c: AnyCollision) -> bool {
        match self {
            CollisionFilter::All => true,
            CollisionFilter::TilesOnly => c is Tile,
            CollisionFilter::CollidersOnly => c is Collider,
        }
    }

    /// Whether collision `c` counts under this filter.
    pub fn accepts(&self, c: &AnyCollision) -> (r: bool)
        ensures
            r == self.admits(*c),
    {
        match self {
            CollisionFilter::All => true,
            CollisionFilter::TilesOnly => match c {
                AnyCollision::Tile(..) => true,
                _ => false,
            },
            CollisionFilter::CollidersOnly => match c {
                AnyCollision::Collider(..) => true,
                _ => false,
            },
        }
    }
}

/// The world-space box of shape box `u` (tile-local, in `SHAPE_UNIT`ths
/// of a tile) placed on tile `t`.
pub open spec fn shape_in_world(c: TileLayerConfig, t: IVec2, u: Aabb) -> Aabb {
    Aabb {
        min: Vec2 {
            x: (t.x * c.size + u.min.x * c.size / SHAPE_UNIT as int) as i64,
            y: (t.y * c.size + u.min.y * c.size / SHAPE_UNIT as int) as i64,
        },
        max: Vec2 {
            x: (t.x * c.size + u.max.x * c.size / SHAPE_UNIT as int) as i64,
            y: (t.y * c.size + u.max.y * c.size / SHAPE_UNIT as int) as i64,
        },
    }
}

/// Part `j1` of tile `t1` comes before part `j2` of tile `t2`: by tile x,
/// then tile y, then position in the shape.
pub open spec fn part_before(t1: IVec2, j1: int, t2: IVec2, j2: int) -> bool {
    t1.x < t2.x || (t1.x == t2.x && (t1.y < t2.y || (t1.y == t2.y && j1 < j2)))
}

/// Tile `t` lies under box `q` (both corners' tiles included).
pub open spec fn tile_under(c: TileLayerConfig, q: Aabb, t: IVec2) -> bool {
    &&& c.tile_of(q.min.x as int) <= t.x <= c.tile_of(q.max.x as int)
    &&& c.tile_of(q.min.y as int) <= t.y <= c.tile_of(q.max.y as int)
}

/// Largest magnitude of a box coordinate that movement accepts.
pub const MOVE_BOUND: i64 = 274877906944;

/// Largest magnitude of a displacement that movement accepts.
pub const STEP_BOUND: i64 = 137438953472;

/// A box that movement accepts.
pub open spec fn move_box_ok(b: Aabb) -> bool {
    &&& b.ok()
    &&& -MOVE_BOUND <= b.min.x && b.max.x <= MOVE_BOUND
    &&& -MOVE_BOUND <= b.min.y && b.max.y <= MOVE_BOUND
}

/// A displacement that movement accepts.
pub open spec fn step_ok(v: Vec2) -> bool {
    -STEP_BOUND <= v.x <= STEP_BOUND && -STEP_BOUND <= v.y <= STEP_BOUND
}

/// Whether movement accepts box `b`.
pub fn move_box_in_range(b: &Aabb) -> (r: bool)
    ensures
        r == move_box_ok(*b),
{
    let c = -MAX_COORD;
    c <= b.min.x && b.min.x <= MAX_COORD && c <= b.min.y && b.min.y <= MAX_COORD && c <= b.max.x
        && b.max.x <= MAX_COORD && c <= b.max.y && b.max.y <= MAX_COORD && b.min.x <= b.max.x
        && b.min.y <= b.max.y && -MOVE_BOUND <= b.min.x && b.max.x <= MOVE_BOUND && -MOVE_BOUND
        <= b.min.y && b.max.y <= MOVE_BOUND
}

/// Whether movement accepts displacement `v`.
pub fn step_in_range(v: &Vec2) -> (r: bool)
    ensures
        r == step_ok(*v),
{
    -STEP_BOUND <= v.x && v.x <= STEP_BOUND && -STEP_BOUND <= v.y && v.y <= STEP_BOUND
}

/// The spatial world: the tile grid, its materials, its collider index,
/// and the cache of per-material collision shapes used for movement.
#[derive(Debug)]
pub struct KinematicApi {
    data: TileWorld,
    registry: MaterialRegistry,
    colliders: WorldColliders,
    cache: MaterialCache,
}

impl KinematicApi {
    pub closed spec fn tiles(&self) -> TileWorld {
        self.data
    }

    pub closed spec fn materials(&self) -> MaterialRegistry {
        self.registry
    }

    pub closed spec fn index(&self) -> WorldColliders {
        self.colliders
    }

    /// The parts agree: every tile holds air or a registered material, the
    /// collider index matches the grid, and the cache matches the registry.
    pub closed spec fn wf(&self) -> bool {
        &&& self.data.wf()
        &&& self.registry.wf()
        &&& self.colliders.wf(self.data)
        &&& self.cache.agrees(&self.registry)
        &&& forall|t: (int, int)| #[trigger]
            self.data.tile_at(t) == AIR || self.data.tile_at(t) < self.registry.count()
    }

    /// A solid tile part that a query of `q` reports: on a tile under `q`
    /// that holds a material other than air whose shape has box `u`, and
    /// placed there, overlapping `q`.
    pub open spec fn tile_hit(&self, q: Aabb, t: IVec2, m: MaterialId, b: Aabb) -> bool {
        let c = self.tiles().layer();
        &&& tile_under(c, q, t)
        &&& m.0 == self.tiles().tile_at(cell(t))
        &&& m.0 != AIR
        &&& self.materials().shape_of(m.0 as int) is Some
        &&& exists|j: int|
            0 <= j < self.materials().shape_of(m.0 as int)->Some_0.len() && b == shape_in_world(
                c,
                t,
                #[trigger] self.materials().shape_of(m.0 as int)->Some_0[j],
            )
        &&& b.overlaps(q)
    }

    /// A collision that a query of `q` may report.
    pub open spec fn hit(&self, q: Aabb, c: AnyCollision) -> bool {
        match c {
            AnyCollision::Tile(t, m, b) => self.tile_hit(q, t, m, b),
            AnyCollision::Collider(h, b) => self.index().boxes().contains_key(h as int) && b
                == self.index().boxes()[h as int] && b.overlaps(q),
        }
    }

    /// A collision that a query of `q` must report: every tile part that
    /// `tile_hit` describes, and every collider overlapping `q` whose center
    /// lies in a chunk that the query visits.
    pub open spec fn must_find(&self, q: Aabb, c: AnyCollision) -> bool {
        match c {
            AnyCollision::Tile(t, m, b) => self.tile_hit(q, t, m, b),
            AnyCollision::Collider(h, b) => self.index().boxes().contains_key(h as int) && b
                == self.index().boxes()[h as int] && b.overlaps(q) && covers(
                self.tiles().layer(),
                q,
                center_chunk(self.tiles().layer(), b),
            ),
        }
    }

    /// `bs` is the list of boxes of the collisions found in `q` that
    /// `filter` admits: each is the box of such a collision, and each such
    /// collision that must be found has its box in `bs`.
    pub open spec fn blocking(&self, q: Aabb, filter: CollisionFilter, bs: Seq<Aabb>) -> bool {
        &&& forall|i: int| 0 <= i < bs.len() ==> self.reports_box(q, filter, #[trigger] bs[i])
        &&& forall|c: AnyCollision|
            #[trigger] self.must_find(q, c) && filter.admits(c) ==> exists|i: int| 0 <= i < bs.len() && #[trigger] bs[i] == c.box_spec()
    }

    /// Box `b` is the box of a collision that a query of `q` reports and
    /// `filter` admits.
    pub open spec fn reports_box(&self, q: Aabb, filter: CollisionFilter, b: Aabb) -> bool {
        exists|c: AnyCollision| #[trigger] self.hit(q, c) && filter.admits(c) && c.box_spec() == b
    }

    /// `e` is box `j` of the shape of material `m`, placed on tile `t`.
    pub open spec fn part_of(&self, t: IVec2, m: MaterialId, j: int, e: AnyCollision) -> bool {
        &&& self.materials().shape_of(m.0 as int) is Some
        &&& 0 <= j < self.materials().shape_of(m.0 as int)->Some_0.len()
        &&& e == AnyCollision::Tile(t, m, shape_in_world(self.tiles().layer(), t, self.materials().shape_of(m.0 as int)->Some_0[j]))
    }

    /// The shape of a query's report `r` of `q`: its first `k` entries are
    /// tile parts, box `js[i]` of their tile's shape, ordered by tile (x,
    /// then y) and within a tile by shape box, so each part once; the rest
    /// is, in order, a collider report `found` of the same query.
    pub open spec fn ordered_report(&self, q: Aabb, r: Seq<AnyCollision>, k: int, js: Seq<int>, found: Seq<(ColliderId, Aabb)>) -> bool {
        &&& 0 <= k <= r.len()
        &&& js.len() == k
        &&& r.len() == k + found.len()
        &&& forall|i: int| 0 <= i < k ==> (#[trigger] r[i]) is Tile && self.part_of(r[i]->Tile_0, r[i]->Tile_1, js[i], r[i])
        &&& forall|i1: int, i2: int|
            0 <= i1 < i2 < k ==> part_before((#[trigger] r[i1])->Tile_0, js[i1], (#[trigger] r[i2])->Tile_0, js[i2])
        &&& forall|i: int| #![trigger found[i]] 0 <= i < found.len() ==> r[k + i] == AnyCollision::Collider(found[i].0, found[i].1)
        &&& self.index().reports(self.tiles(), q, found)
    }

    /// `r` is a displacement that `move_by(b, by, filter)` may return: on
    /// each axis, x first, the desired distance resolved against the
    /// blocking list of the region it sweeps.
    pub open spec fn moved_by(&self, b: Aabb, by: Vec2, filter: CollisionFilter, r: Vec2) -> bool {
        exists|bx: Seq<Aabb>, byy: Seq<Aabb>|
            self.blocking(sweep(b, Axis2::X, by.x as int), filter, bx) && r.x == resolve(b, Axis2::X, by.x as int, bx)
                && self.blocking(sweep(shifted(b, Axis2::X, r.x as int), Axis2::Y, by.y as int), filter, byy)
                && r.y == resolve(shifted(b, Axis2::X, r.x as int), Axis2::Y, by.y as int, byy)
    }

    /// `open` is a clip-mask answer for `axis`: closed only where the probe
    /// toward the sign of `v` reports an admitted collision, open only
    /// where it must find none.
    pub open spec fn clip_open(&self, b: Aabb, axis: Axis2, v: int, filter: CollisionFilter, open: bool) -> bool {
        &&& !open ==> exists|c: AnyCollision| #[trigger] self.hit(probe(b, axis, v), c) && filter.admits(c)
        &&& open ==> forall|c: AnyCollision| #[trigger] self.must_find(probe(b, axis, v), c) ==> !filter.admits(c)
    }

    /// Only the cache changed.
    pub open spec fn same_world(&self, o: &KinematicApi) -> bool {
        self.tiles() == o.tiles() && self.materials() == o.materials() && self.index() == o.index()
    }
}


/// `a * s` stays between `lo * s` and `hi * s` when `a` stays between `lo` and `hi`.
proof fn lemma_scale_between(lo: int, a: int, hi: int, s: int)
    requires
        lo <= a <= hi,
        s >= 1,
    ensures
        lo * s <= a * s <= hi * s,
{
    assert(lo * s <= a * s <= hi * s) by (nonlinear_arith)
        requires lo <= a <= hi, s >= 1;
}

/// A tile under an in-range box starts within twice the coordinate bound.
proof fn lemma_tile_origin_bound(c: TileLayerConfig, q: Aabb, t: IVec2)
    requires
        c.ok(),
        q.ok(),
        tile_under(c, q, t),
    ensures
        -2 * MAX_COORD <= t.x * c.size <= MAX_COORD,
        -2 * MAX_COORD <= t.y * c.size <= MAX_COORD,
{
    let s = c.size as int;
    let (ax, bx) = (q.min.x as int, q.max.x as int);
    let (ay, by) = (q.min.y as int, q.max.y as int);
    assert(ax / s * s + s > ax && by / s * s <= by) by (nonlinear_arith)
        requires s >= 1;
    assert(ay / s * s + s > ay && bx / s * s <= bx) by (nonlinear_arith)
        requires s >= 1;
    lemma_scale_between(ax / s, t.x as int, bx / s, s);
    lemma_scale_between(ay / s, t.y as int, by / s, s);
}

/// The world-space box of shape box `u` on tile `t`.
fn place_shape(c: TileLayerConfig, t: IVec2, u: Aabb) -> (r: Aabb)
    requires
        c.ok(),
        shape_box_ok(u),
        -2 * MAX_COORD <= t.x * c.size <= MAX_COORD,
        -2 * MAX_COORD <= t.y * c.size <= MAX_COORD,
    ensures
        r == shape_in_world(c, t, u),
{
    let s = c.size;
    assert(0 <= u.min.x * s <= SHAPE_UNIT * MAX_COORD) by (nonlinear_arith)
        requires 0 <= u.min.x <= SHAPE_UNIT, 1 <= s <= MAX_COORD;
    assert(0 <= u.max.x * s <= SHAPE_UNIT * MAX_COORD) by (nonlinear_arith)
        requires 0 <= u.max.x <= SHAPE_UNIT, 1 <= s <= MAX_COORD;
    assert(0 <= u.min.y * s <= SHAPE_UNIT * MAX_COORD) by (nonlinear_arith)
        requires 0 <= u.min.y <= SHAPE_UNIT, 1 <= s <= MAX_COORD;
    assert(0 <= u.max.y * s <= SHAPE_UNIT * MAX_COORD) by (nonlinear_arith)
        requires 0 <= u.max.y <= SHAPE_UNIT, 1 <= s <= MAX_COORD;
    let x0 = t.x * s;
    let y0 = t.y * s;
    Aabb {
        min: Vec2 { x: x0 + u.min.x * s / SHAPE_UNIT, y: y0 + u.min.y * s / SHAPE_UNIT },
        max: Vec2 { x: x0 + u.max.x * s / SHAPE_UNIT, y: y0 + u.max.y * s / SHAPE_UNIT },
    }
}

impl KinematicApi {
    /// Appends the parts of tile `t` (holding material `m`) that overlap `q`.
    fn tile_parts(&mut self, q: Aabb, t: IVec2, m: MaterialId, out: &mut Vec<AnyCollision>) -> (js: Ghost<Seq<int>>)
        requires
            old(self).wf(),
            q.ok(),
            tile_under(old(self).tiles().layer(), q, t),
            m.0 == old(self).tiles().tile_at(cell(t)),
            m.0 != AIR,
        ensures
            final(self).wf(),
            final(self).same_world(old(self)),
            final(out).len() >= old(out).len(),
            forall|k: int| 0 <= k < old(out).len() ==> #[trigger] final(out)@[k] == old(out)@[k],
            forall|k: int| old(out).len() <= k < final(out).len() ==> old(self).hit(q, #[trigger] final(out)@[k]),
            forall|k: int| old(out).len() <= k < final(out).len() ==> (#[trigger] final(out)@[k]) is Tile,
            forall|b: Aabb|
                #[trigger] old(self).tile_hit(q, t, m, b) ==> exists|k: int|
                    old(out).len() <= k < final(out).len() && #[trigger] final(out)@[k] == AnyCollision::Tile(t, m, b),
            js@.len() == final(out).len() - old(out).len(),
            forall|i: int| 0 <= i < js@.len() ==> old(self).part_of(t, m, #[trigger] js@[i], final(out)@[old(out).len() + i]),
            forall|i1: int, i2: int| 0 <= i1 < i2 < js@.len() ==> #[trigger] js@[i1] < #[trigger] js@[i2],
    {
        let c = self.data.config();
        proof {
            lemma_tile_origin_bound(c, q, t);
        }
        let ghost s0 = *self;
        let start = out.len();
        let shape = self.cache.get(&self.registry, m);
        assert(self.same_world(&s0));
        match shape {
            None => {
                assert forall|b: Aabb| #[trigger] s0.tile_hit(q, t, m, b) implies exists|k: int|
                    start <= k < out.len() && #[trigger] out@[k] == AnyCollision::Tile(t, m, b) by {}
                Ghost(Seq::empty())
            },
            Some(d) => {
                let ghost mut js: Seq<int> = Seq::empty();
                let mut j: usize = 0;
                let n = d.aabbs.len();
                while j < n
                    invariant
                        self.wf(),
                        self.same_world(&s0),
                        s0.wf(),
                        c == s0.tiles().layer(),
                        c.ok(),
                        -2 * MAX_COORD <= t.x * c.size <= MAX_COORD,
                        -2 * MAX_COORD <= t.y * c.size <= MAX_COORD,
                        s0.materials().shape_of(m.0 as int) == Some(d@),
                        d.ok(),
                        tile_under(c, q, t),
                        m.0 == s0.tiles().tile_at(cell(t)),
                        m.0 != AIR,
                        n == d@.len(),
                        j <= n,
                        start == old(out).len(),
                        start <= out.len(),
                        forall|k: int| 0 <= k < start ==> #[trigger] out@[k] == old(out)@[k],
                        forall|k: int| start <= k < out.len() ==> s0.hit(q, #[trigger] out@[k]),
                        forall|k: int| start <= k < out.len() ==> (#[trigger] out@[k]) is Tile,
                        forall|i: int|
                            0 <= i < j && (#[trigger] shape_in_world(c, t, d@[i])).overlaps(q) ==> exists|k: int|
                                start <= k < out.len() && #[trigger] out@[k] == AnyCollision::Tile(t, m, shape_in_world(c, t, d@[i])),
                        js.len() == out.len() - start,
                        forall|i: int| 0 <= i < js.len() ==> 0 <= #[trigger] js[i] < j && s0.part_of(t, m, js[i], out@[start + i]),
                        forall|i1: int, i2: int| 0 <= i1 < i2 < js.len() ==> #[trigger] js[i1] < #[trigger] js[i2],
                    decreases n - j,
                {
                    let u = shape_at(&d.aabbs, j);
                    assert(shape_box_ok(d@[j as int]));
                    let b = place_shape(c, t, u);
                    let ghost before = out@;
                    if b.intersects(&q) {
                        out.push(AnyCollision::Tile(t, m, b));
                        proof {
                            let js0 = js;
                            js = js.push(j as int);
                            assert forall|i: int| 0 <= i < js.len() implies 0 <= #[trigger] js[i] < j + 1 && s0.part_of(t, m, js[i], out@[start + i]) by {
                                if i < js0.len() {
                                    assert(js[i] == js0[i]);
                                    assert(out@[start + i] == before[start + i]);
                                }
                            }
                            assert forall|i1: int, i2: int| 0 <= i1 < i2 < js.len() implies #[trigger] js[i1] < #[trigger] js[i2] by {
                                assert(js[i1] == js0[i1]);
                                if i2 < js0.len() {
                                    assert(js[i2] == js0[i2]);
                                }
                            }
                            assert(s0.tile_hit(q, t, m, b)) by {
                                assert(b == shape_in_world(c, t, s0.materials().shape_of(m.0 as int)->Some_0[j as int]));
                            }
                            assert forall|k: int| 0 <= k < start implies #[trigger] out@[k] == old(out)@[k] by {
                                assert(out@[k] == before[k]);
                            }
                            assert forall|k: int| start <= k < out.len() implies s0.hit(q, #[trigger] out@[k]) && out@[k] is Tile by {
                                if k < before.len() {
                                    assert(out@[k] == before[k]);
                                }
                            }
                            assert forall|i: int|
                                0 <= i < j + 1 && (#[trigger] shape_in_world(c, t, d@[i])).overlaps(q) implies exists|k: int|
                                    start <= k < out.len() && #[trigger] out@[k] == AnyCollision::Tile(t, m, shape_in_world(c, t, d@[i])) by {
                                if i < j {
                                    let k = choose|k: int| start <= k < before.len() && #[trigger] before[k] == AnyCollision::Tile(t, m, shape_in_world(c, t, d@[i]));
                                    assert(out@[k] == before[k]);
                                } else {
                                    assert(out@[out.len() - 1] == AnyCollision::Tile(t, m, b));
                                }
                            }
                        }
                    }
                    j += 1;
                }
                proof {
                    assert forall|b: Aabb| #[trigger] s0.tile_hit(q, t, m, b) implies exists|k: int|
                        start <= k < out.len() && #[trigger] out@[k] == AnyCollision::Tile(t, m, b) by {
                        let v = s0.materials().shape_of(m.0 as int)->Some_0;
                        let i = choose|i: int| 0 <= i < v.len() && b == shape_in_world(c, t, #[trigger] v[i]);
                        assert(shape_in_world(c, t, d@[i]).overlaps(q));
                    }
                }
                Ghost(js)
            },
        }
    }
}


/// Tile `t` comes before column `cx`, row `cy` in a row-by-row walk over
/// columns from `x0` and rows `y0..=y1`.
pub open spec fn tile_visited(x0: int, y0: int, y1: int, cx: int, cy: int, t: IVec2) -> bool {
    (x0 <= t.x < cx && y0 <= t.y <= y1) || (t.x == cx && y0 <= t.y < cy)
}

impl KinematicApi {
    /// Every collision with box `q`: first the solid parts of the tiles
    /// under `q` (air skipped, each material's shape placed on its tile,
    /// kept where it overlaps `q`), tile by tile by x and then y and each
    /// shape's boxes in order, then the tracked colliders overlapping `q`
    /// as `WorldColliders::collisions` lists them. Only the shape cache
    /// changes.
    pub fn iter_colliders_in(&mut self, q: Aabb) -> (r: Vec<AnyCollision>)
        requires
            old(self).wf(),
            query_ok(q),
        ensures
            final(self).wf(),
            final(self).same_world(old(self)),
            forall|k: int| 0 <= k < r.len() ==> old(self).hit(q, #[trigger] r@[k]),
            forall|c: AnyCollision| #[trigger] old(self).must_find(q, c) ==> exists|k: int| 0 <= k < r.len() && r@[k] == c,
            exists|k: int, js: Seq<int>, found: Seq<(ColliderId, Aabb)>| #[trigger] old(self).ordered_report(q, r@, k, js, found),
    {
        let ghost s0 = *self;
        let ghost mut js: Seq<int> = Seq::empty();
        let c = self.data.config();
        let (t0, t1) = c.actor_aabb_to_tile(q);
        let ghost x0 = t0.x as int;
        let ghost y0 = t0.y as int;
        let ghost y1 = t1.y as int;
        let mut out: Vec<AnyCollision> = Vec::new();
        let mut tx = t0.x;
        while tx <= t1.x
            invariant
                self.wf(),
                self.same_world(&s0),
                s0.wf(),
                c == s0.tiles().layer(),
                q.ok(),
                t0.x <= tx <= t1.x + 1,
                t0.y <= t1.y,
                t0.ok() && t1.ok(),
                x0 == t0.x && y0 == t0.y && y1 == t1.y,
                t0.x == c.tile_of(q.min.x as int) && t0.y == c.tile_of(q.min.y as int),
                t1.x == c.tile_of(q.max.x as int) && t1.y == c.tile_of(q.max.y as int),
                forall|k: int| 0 <= k < out.len() ==> s0.hit(q, #[trigger] out@[k]),
                forall|k: int| 0 <= k < out.len() ==> (#[trigger] out@[k]) is Tile,
                forall|t: IVec2, m: MaterialId, b: Aabb|
                    #[trigger] s0.tile_hit(q, t, m, b) && tile_visited(x0, y0, y1, tx as int, y0, t) ==> exists|k: int|
                        0 <= k < out.len() && #[trigger] out@[k] == AnyCollision::Tile(t, m, b),
                js.len() == out.len(),
                forall|i: int| 0 <= i < out.len() ==> s0.part_of((#[trigger] out@[i])->Tile_0, out@[i]->Tile_1, js[i], out@[i])
                    && tile_visited(x0, y0, y1, tx as int, y0, out@[i]->Tile_0),
                forall|i1: int, i2: int| 0 <= i1 < i2 < out.len() ==> part_before((#[trigger] out@[i1])->Tile_0, js[i1], (#[trigger] out@[i2])->Tile_0, js[i2]),
            decreases t1.x + 1 - tx,
        {
            let mut ty = t0.y;
            while ty <= t1.y
                invariant
                    self.wf(),
                    self.same_world(&s0),
                    s0.wf(),
                    c == s0.tiles().layer(),
                    q.ok(),
                    t0.x <= tx <= t1.x,
                    t0.y <= ty <= t1.y + 1,
                    t0.ok() && t1.ok(),
                    x0 == t0.x && y0 == t0.y && y1 == t1.y,
                    t0.x == c.tile_of(q.min.x as int) && t0.y == c.tile_of(q.min.y as int),
                    t1.x == c.tile_of(q.max.x as int) && t1.y == c.tile_of(q.max.y as int),
                    forall|k: int| 0 <= k < out.len() ==> s0.hit(q, #[trigger] out@[k]),
                    forall|k: int| 0 <= k < out.len() ==> (#[trigger] out@[k]) is Tile,
                    forall|t: IVec2, m: MaterialId, b: Aabb|
                        #[trigger] s0.tile_hit(q, t, m, b) && tile_visited(x0, y0, y1, tx as int, ty as int, t) ==> exists|k: int|
                            0 <= k < out.len() && #[trigger] out@[k] == AnyCollision::Tile(t, m, b),
                    js.len() == out.len(),
                    forall|i: int| 0 <= i < out.len() ==> s0.part_of((#[trigger] out@[i])->Tile_0, out@[i]->Tile_1, js[i], out@[i])
                        && tile_visited(x0, y0, y1, tx as int, ty as int, out@[i]->Tile_0),
                    forall|i1: int, i2: int| 0 <= i1 < i2 < out.len() ==> part_before((#[trigger] out@[i1])->Tile_0, js[i1], (#[trigger] out@[i2])->Tile_0, js[i2]),
                decreases t1.y + 1 - ty,
            {
                let t = IVec2 { x: tx, y: ty };
                let ghost before = out@;
                let m = self.data.tile(t);
                if m.0 != AIR {
                    let ghost pre = *self;
                    let new_js = self.tile_parts(q, t, m, &mut out);
                    proof {
                        let js0 = js;
                        js = js + new_js@;
                        assert forall|i: int| 0 <= i < out.len() implies s0.part_of((#[trigger] out@[i])->Tile_0, out@[i]->Tile_1, js[i], out@[i])
                            && tile_visited(x0, y0, y1, tx as int, ty + 1, out@[i]->Tile_0) by {
                            if i < before.len() {
                                assert(out@[i] == before[i]);
                                assert(js[i] == js0[i]);
                            } else {
                                assert(js[i] == new_js@[i - before.len()]);
                                assert(pre.part_of(t, m, new_js@[i - before.len()], out@[before.len() + (i - before.len())]));
                            }
                        }
                        assert forall|i1: int, i2: int| 0 <= i1 < i2 < out.len() implies part_before((#[trigger] out@[i1])->Tile_0, js[i1], (#[trigger] out@[i2])->Tile_0, js[i2]) by {
                            if i2 < before.len() {
                                assert(out@[i1] == before[i1] && out@[i2] == before[i2]);
                                assert(js[i1] == js0[i1] && js[i2] == js0[i2]);
                            } else if i1 < before.len() {
                                assert(out@[i1] == before[i1]);
                                assert(pre.part_of(t, m, new_js@[i2 - before.len()], out@[before.len() + (i2 - before.len())]));
                            } else {
                                assert(pre.part_of(t, m, new_js@[i1 - before.len()], out@[before.len() + (i1 - before.len())]));
                                assert(pre.part_of(t, m, new_js@[i2 - before.len()], out@[before.len() + (i2 - before.len())]));
                                assert(js[i1] == new_js@[i1 - before.len()] && js[i2] == new_js@[i2 - before.len()]);
                            }
                        }
                        assert(pre.tiles() == s0.tiles() && pre.materials() == s0.materials());
                        assert forall|k: int| 0 <= k < out.len() implies s0.hit(q, #[trigger] out@[k]) && out@[k] is Tile by {
                            if k < before.len() {
                                assert(out@[k] == before[k]);
                            }
                        }
                        assert forall|t2: IVec2, m2: MaterialId, b: Aabb|
                            #[trigger] s0.tile_hit(q, t2, m2, b) && tile_visited(x0, y0, y1, tx as int, ty + 1, t2) implies exists|k: int|
                                0 <= k < out.len() && #[trigger] out@[k] == AnyCollision::Tile(t2, m2, b) by {
                            if t2 == t {
                                assert(m2 == m);
                                assert(pre.tile_hit(q, t, m, b));
                                let k = choose|k: int| before.len() <= k < out.len() && #[trigger] out@[k] == AnyCollision::Tile(t, m, b);
                            } else {
                                let k = choose|k: int| 0 <= k < before.len() && #[trigger] before[k] == AnyCollision::Tile(t2, m2, b);
                                assert(out@[k] == before[k]);
                            }
                        }
                    }
                } else {
                    proof {
                        assert forall|t2: IVec2, m2: MaterialId, b: Aabb|
                            #[trigger] s0.tile_hit(q, t2, m2, b) && tile_visited(x0, y0, y1, tx as int, ty + 1, t2) implies exists|k: int|
                                0 <= k < out.len() && #[trigger] out@[k] == AnyCollision::Tile(t2, m2, b) by {
                            assert(t2 != t);
                        }
                        assert forall|i: int| 0 <= i < out.len() implies s0.part_of((#[trigger] out@[i])->Tile_0, out@[i]->Tile_1, js[i], out@[i])
                            && tile_visited(x0, y0, y1, tx as int, ty + 1, out@[i]->Tile_0) by {}
                    }
                }
                ty += 1;
            }
            tx += 1;
        }
        let found = self.colliders.collisions(&self.data, q);
        let ghost tiles_end = out.len() as int;
        let mut i: usize = 0;
        while i < found.len()
            invariant
                self.wf(),
                self.same_world(&s0),
                s0.wf(),
                c == s0.tiles().layer(),
                q.ok(),
                i <= found.len(),
                0 <= tiles_end <= out.len(),
                out.len() == tiles_end + i,
                forall|k: int| 0 <= k < out.len() ==> s0.hit(q, #[trigger] out@[k]),
                forall|k: int| 0 <= k < tiles_end ==> (#[trigger] out@[k]) is Tile,
                forall|t: IVec2, m: MaterialId, b: Aabb|
                    #[trigger] s0.tile_hit(q, t, m, b) && tile_under(c, q, t) ==> exists|k: int|
                        0 <= k < tiles_end && #[trigger] out@[k] == AnyCollision::Tile(t, m, b),
                forall|k: int| 0 <= k < i ==> #[trigger] out@[tiles_end + k] == AnyCollision::Collider(found@[k].0, found@[k].1),
                js.len() == tiles_end,
                forall|k: int| 0 <= k < tiles_end ==> (#[trigger] out@[k]) is Tile && s0.part_of(out@[k]->Tile_0, out@[k]->Tile_1, js[k], out@[k]),
                forall|i1: int, i2: int| 0 <= i1 < i2 < tiles_end ==> part_before((#[trigger] out@[i1])->Tile_0, js[i1], (#[trigger] out@[i2])->Tile_0, js[i2]),
                s0.index().reports(s0.tiles(), q, found@),
                forall|k: int|
                    0 <= k < found.len() ==> {
                        let e = #[trigger] found@[k];
                        &&& s0.index().boxes().contains_key(e.0 as int)
                        &&& e.1 == s0.index().boxes()[e.0 as int]
                        &&& e.1.overlaps(q)
                    },
            decreases found.len() - i,
        {
            let (h, b) = found[i];
            let ghost before = out@;
            out.push(AnyCollision::Collider(h, b));
            proof {
                assert(out@ == before.push(AnyCollision::Collider(h, b)));
                assert(before.len() == tiles_end + i);
                assert forall|k: int| 0 <= k < out.len() implies s0.hit(q, #[trigger] out@[k]) by {
                    if k < before.len() {
                        assert(out@[k] == before[k]);
                    }
                }
                assert forall|k: int| 0 <= k < i + 1 implies #[trigger] out@[tiles_end + k] == AnyCollision::Collider(found@[k].0, found@[k].1) by {
                    if k < i {
                        assert(0 <= tiles_end + k < before.len());
                        assert(before.push(AnyCollision::Collider(h, b))[tiles_end + k] == before[tiles_end + k]);
                    } else {
                        assert(found@[k] == (h, b));
                    }
                }
                assert forall|t: IVec2, m: MaterialId, b2: Aabb|
                    #[trigger] s0.tile_hit(q, t, m, b2) && tile_under(c, q, t) implies exists|k: int|
                        0 <= k < tiles_end && #[trigger] out@[k] == AnyCollision::Tile(t, m, b2) by {
                    let k = choose|k: int| 0 <= k < tiles_end && #[trigger] before[k] == AnyCollision::Tile(t, m, b2);
                    assert(out@[k] == before[k]);
                }
                assert forall|k: int| 0 <= k < tiles_end implies (#[trigger] out@[k]) is Tile && s0.part_of(out@[k]->Tile_0, out@[k]->Tile_1, js[k], out@[k]) by {
                    assert(out@[k] == before[k]);
                }
                assert forall|i1: int, i2: int| 0 <= i1 < i2 < tiles_end implies part_before((#[trigger] out@[i1])->Tile_0, js[i1], (#[trigger] out@[i2])->Tile_0, js[i2]) by {
                    assert(out@[i1] == before[i1] && out@[i2] == before[i2]);
                }
            }
            i += 1;
        }
        proof {
            assert forall|cl: AnyCollision| #[trigger] s0.must_find(q, cl) implies exists|k: int| 0 <= k < out.len() && out@[k] == cl by {
                match cl {
                    AnyCollision::Tile(t, m, b) => {
                        assert(s0.tile_hit(q, t, m, b));
                        let k = choose|k: int| 0 <= k < tiles_end && #[trigger] out@[k] == AnyCollision::Tile(t, m, b);
                    },
                    AnyCollision::Collider(h, b) => {
                        let k = choose|k: int| 0 <= k < found.len() && #[trigger] found@[k].0 == h;
                        assert(out@[tiles_end + k] == AnyCollision::Collider(found@[k].0, found@[k].1));
                    },
                }
            }
            assert(s0.index() == self.index() && s0.tiles() == self.tiles());
            assert(s0.ordered_report(q, out@, tiles_end, js, found@));
        }
        out
    }
}


/// The region a move of `d` along `axis` sweeps: the box stretched by the
/// move plus the tolerance, in the direction of the move.
pub open spec fn sweep(m: Aabb, axis: Axis2, d: int) -> Aabb {
    let e = if d < 0 { d - TOLERANCE } else { d + TOLERANCE };
    let v = match axis {
        Axis2::X => Vec2 { x: e as i64, y: 0 },
        Axis2::Y => Vec2 { x: 0, y: e as i64 },
    };
    Aabb {
        min: Vec2 {
            x: (if v.x < 0 { m.min.x + v.x } else { m.min.x as int }) as i64,
            y: (if v.y < 0 { m.min.y + v.y } else { m.min.y as int }) as i64,
        },
        max: Vec2 {
            x: (if v.x > 0 { m.max.x + v.x } else { m.max.x as int }) as i64,
            y: (if v.y > 0 { m.max.y + v.y } else { m.max.y as int }) as i64,
        },
    }
}

/// The thin region probed for contact along `axis`: the box stretched by
/// twice the tolerance toward the sign of `v` (positive at zero).
pub open spec fn probe(m: Aabb, axis: Axis2, v: int) -> Aabb {
    let e: int = if v < 0 { -2 * TOLERANCE } else { 2 * TOLERANCE };
    let w = match axis {
        Axis2::X => Vec2 { x: e as i64, y: 0 },
        Axis2::Y => Vec2 { x: 0, y: e as i64 },
    };
    Aabb {
        min: Vec2 {
            x: (if w.x < 0 { m.min.x + w.x } else { m.min.x as int }) as i64,
            y: (if w.y < 0 { m.min.y + w.y } else { m.min.y as int }) as i64,
        },
        max: Vec2 {
            x: (if w.x > 0 { m.max.x + w.x } else { m.max.x as int }) as i64,
            y: (if w.y > 0 { m.max.y + w.y } else { m.max.y as int }) as i64,
        },
    }
}

/// A box that one axis of movement accepts.
pub open spec fn sweep_box_ok(b: Aabb) -> bool {
    &&& b.ok()
    &&& -(MOVE_BOUND + STEP_BOUND) <= b.min.x && b.max.x <= MOVE_BOUND + STEP_BOUND
    &&& -(MOVE_BOUND + STEP_BOUND) <= b.min.y && b.max.y <= MOVE_BOUND + STEP_BOUND
}

/// The box moved by `d` along `axis`.
pub open spec fn shifted(m: Aabb, axis: Axis2, d: int) -> Aabb {
    match axis {
        Axis2::X => Aabb {
            min: Vec2 { x: (m.min.x + d) as i64, y: m.min.y },
            max: Vec2 { x: (m.max.x + d) as i64, y: m.max.y },
        },
        Axis2::Y => Aabb {
            min: Vec2 { x: m.min.x, y: (m.min.y + d) as i64 },
            max: Vec2 { x: m.max.x, y: (m.max.y + d) as i64 },
        },
    }
}

impl KinematicApi {
    /// Whether any collision with `q` passes `filter`: when it answers
    /// yes there is such a collision, and when it answers no, none of the
    /// collisions a query must find passes.
    pub fn has_colliders_in(&mut self, q: Aabb, filter: CollisionFilter) -> (r: bool)
        requires
            old(self).wf(),
            query_ok(q),
        ensures
            final(self).wf(),
            final(self).same_world(old(self)),
            r ==> exists|c: AnyCollision| #[trigger] old(self).hit(q, c) && filter.admits(c),
            !r ==> forall|c: AnyCollision| #[trigger] old(self).must_find(q, c) ==> !filter.admits(c),
    {
        let found = self.iter_colliders_in(q);
        let mut i: usize = 0;
        while i < found.len()
            invariant
                self.wf(),
                self.same_world(old(self)),
                forall|k: int| 0 <= k < found.len() ==> old(self).hit(q, #[trigger] found@[k]),
                forall|c: AnyCollision| #[trigger] old(self).must_find(q, c) ==> exists|k: int| 0 <= k < found.len() && found@[k] == c,
                i <= found.len(),
                forall|k: int| 0 <= k < i ==> !filter.admits(#[trigger] found@[k]),
            decreases found.len() - i,
        {
            if filter.accepts(&found[i]) {
                assert(old(self).hit(q, found@[i as int]));
                return true;
            }
            i += 1;
        }
        proof {
            assert forall|c: AnyCollision| #[trigger] old(self).must_find(q, c) implies !filter.admits(c) by {
                let k = choose|k: int| 0 <= k < found.len() && #[trigger] found@[k] == c;
                assert(!filter.admits(found@[k]));
            }
        }
        false
    }

    /// Per axis, whether movement toward the sign of `by` on that axis is
    /// open: true exactly when the probe a tolerance-pair deep on that side
    /// finds no collision passing `filter`.
    pub fn get_clip_mask(&mut self, b: Aabb, by: Vec2, filter: CollisionFilter) -> (r: (bool, bool))
        requires
            old(self).wf(),
            sweep_box_ok(b),
        ensures
            final(self).wf(),
            final(self).same_world(old(self)),
            !r.0 ==> exists|c: AnyCollision| #[trigger] old(self).hit(probe(b, Axis2::X, by.x as int), c) && filter.admits(c),
            r.0 ==> forall|c: AnyCollision| #[trigger] old(self).must_find(probe(b, Axis2::X, by.x as int), c) ==> !filter.admits(c),
            !r.1 ==> exists|c: AnyCollision| #[trigger] old(self).hit(probe(b, Axis2::Y, by.y as int), c) && filter.admits(c),
            r.1 ==> forall|c: AnyCollision| #[trigger] old(self).must_find(probe(b, Axis2::Y, by.y as int), c) ==> !filter.admits(c),
            old(self).clip_open(b, Axis2::X, by.x as int, filter, r.0),
            old(self).clip_open(b, Axis2::Y, by.y as int, filter, r.1),
    {
        let px = if by.x < 0 { -2 * TOLERANCE } else { 2 * TOLERANCE };
        let region_x = b.translate_extend(Axis2::X.unit_mag(px));
        assert(region_x == probe(b, Axis2::X, by.x as int));
        let open_x = !self.has_colliders_in(region_x, filter);
        let ghost s1 = *self;
        let py = if by.y < 0 { -2 * TOLERANCE } else { 2 * TOLERANCE };
        let region_y = b.translate_extend(Axis2::Y.unit_mag(py));
        assert(region_y == probe(b, Axis2::Y, by.y as int));
        let open_y = !self.has_colliders_in(region_y, filter);
        proof {
            assert(s1.tiles() == old(self).tiles() && s1.materials() == old(self).materials() && s1.index() == old(self).index());
            assert forall|c: AnyCollision| s1.hit(region_y, c) == old(self).hit(region_y, c) by {}
            assert forall|c: AnyCollision| s1.must_find(region_y, c) == old(self).must_find(region_y, c) by {}
            if !open_y {
                let c = choose|c: AnyCollision| #[trigger] s1.hit(region_y, c) && filter.admits(c);
                assert(old(self).hit(region_y, c));
            } else {
                assert forall|c: AnyCollision| #[trigger] old(self).must_find(region_y, c) implies !filter.admits(c) by {
                    assert(s1.must_find(region_y, c));
                }
            }
        }
        (open_x, open_y)
    }

    /// The resolved displacement of box `m` along one axis, of the desired `d`.
    fn move_axis(&mut self, m: Aabb, axis: Axis2, d: i64, filter: CollisionFilter) -> (r: i64)
        requires
            old(self).wf(),
            sweep_box_ok(m),
            -STEP_BOUND <= d <= STEP_BOUND,
        ensures
            final(self).wf(),
            final(self).same_world(old(self)),
            exists|bs: Seq<Aabb>| old(self).blocking(sweep(m, axis, d as int), filter, bs) && r == resolve(m, axis, d as int, bs),
            abs(r as int) <= abs(d as int),
    {
        let e = add_magnitude(d, TOLERANCE);
        let region = m.translate_extend(axis.unit_mag(e));
        assert(region == sweep(m, axis, d as int));
        let found = self.iter_colliders_in(region);
        let mut boxes: Vec<Aabb> = Vec::new();
        let ghost mut picked: Seq<AnyCollision> = Seq::empty();
        let mut i: usize = 0;
        while i < found.len()
            invariant
                self.wf(),
                self.same_world(old(self)),
                forall|c: AnyCollision| #[trigger] old(self).must_find(region, c) ==> exists|k: int| 0 <= k < found.len() && found@[k] == c,
                i <= found.len(),
                forall|k: int| 0 <= k < found.len() ==> old(self).hit(region, #[trigger] found@[k]),
                picked.len() == boxes.len(),
                forall|k: int|
                    0 <= k < picked.len() ==> old(self).hit(region, #[trigger] picked[k]) && filter.admits(picked[k])
                        && picked[k].box_spec() == boxes@[k],
                forall|k: int| 0 <= k < i && filter.admits(#[trigger] found@[k]) ==> exists|j: int| 0 <= j < boxes.len() && #[trigger] boxes@[j] == found@[k].box_spec(),
            decreases found.len() - i,
        {
            let c = found[i];
            let ghost before = boxes@;
            let ghost picked_before = picked;
            if filter.accepts(&c) {
                boxes.push(c.aabb());
                proof {
                    picked = picked.push(c);
                    assert forall|k: int|
                        0 <= k < picked.len() implies old(self).hit(region, #[trigger] picked[k]) && filter.admits(picked[k])
                            && picked[k].box_spec() == boxes@[k] by {
                        if k < picked_before.len() {
                            assert(picked[k] == picked_before[k]);
                            assert(boxes@[k] == before[k]);
                        }
                    }
                    assert forall|k: int| 0 <= k < i + 1 && filter.admits(#[trigger] found@[k]) implies exists|j: int| 0 <= j < boxes.len() && #[trigger] boxes@[j] == found@[k].box_spec() by {
                        if k < i {
                            let j = choose|j: int| 0 <= j < before.len() && #[trigger] before[j] == found@[k].box_spec();
                            assert(boxes@[j] == before[j]);
                        } else {
                            assert(boxes@[boxes.len() - 1] == found@[k].box_spec());
                        }
                    }
                }
            }
            i += 1;
        }
        proof {
            assert forall|c2: AnyCollision| #[trigger] old(self).must_find(region, c2) && filter.admits(c2) implies exists|j: int| 0 <= j < boxes.len() && #[trigger] boxes@[j] == c2.box_spec() by {
                let k = choose|k: int| 0 <= k < found.len() && #[trigger] found@[k] == c2;
                let j = choose|j: int| 0 <= j < boxes.len() && #[trigger] boxes@[j] == found@[k].box_spec();
                assert(boxes@[j] == c2.box_spec());
            }
            lemma_blocking_from_picks(*old(self), region, filter, boxes@, picked);
        }
        resolve_axis(m, axis, d, &boxes)
    }

    /// Moves box `b` by as much of `by` as the collisions passing `filter`
    /// allow, x first and then y from the box as the x move left it, and
    /// returns the displacement made. On each axis the move is the desired
    /// distance cut down to the gap, less the tolerance, to each collision
    /// in the region the move sweeps.
    pub fn move_by(&mut self, b: Aabb, by: Vec2, filter: CollisionFilter) -> (r: Vec2)
        requires
            old(self).wf(),
            move_box_ok(b),
            step_ok(by),
        ensures
            final(self).wf(),
            final(self).same_world(old(self)),
            exists|bx: Seq<Aabb>, byy: Seq<Aabb>|
                old(self).blocking(sweep(b, Axis2::X, by.x as int), filter, bx) && r.x == resolve(b, Axis2::X, by.x as int, bx)
                    && old(self).blocking(sweep(shifted(b, Axis2::X, r.x as int), Axis2::Y, by.y as int), filter, byy)
                    && r.y == resolve(shifted(b, Axis2::X, r.x as int), Axis2::Y, by.y as int, byy),
            abs(r.x as int) <= abs(by.x as int),
            abs(r.y as int) <= abs(by.y as int),
            old(self).moved_by(b, by, filter, r),
    {
        let ghost s0 = *self;
        let dx = self.move_axis(b, Axis2::X, by.x, filter);
        let b1 = b.translated(Axis2::X.unit_mag(dx));
        assert(b1 == shifted(b, Axis2::X, dx as int));
        let ghost s1 = *self;
        let dy = self.move_axis(b1, Axis2::Y, by.y, filter);
        proof {
            assert(s1.tiles() == s0.tiles() && s1.materials() == s0.materials() && s1.index() == s0.index());
            let bx = choose|bs: Seq<Aabb>| s0.blocking(sweep(b, Axis2::X, by.x as int), filter, bs) && dx == resolve(b, Axis2::X, by.x as int, bs);
            let byy = choose|bs: Seq<Aabb>| s1.blocking(sweep(b1, Axis2::Y, by.y as int), filter, bs) && dy == resolve(b1, Axis2::Y, by.y as int, bs);
            assert(s0.blocking(sweep(b1, Axis2::Y, by.y as int), filter, byy)) by {
                assert forall|c: AnyCollision| s1.hit(sweep(b1, Axis2::Y, by.y as int), c) == s0.hit(sweep(b1, Axis2::Y, by.y as int), c) by {}
                assert forall|c: AnyCollision| s1.must_find(sweep(b1, Axis2::Y, by.y as int), c) == s0.must_find(sweep(b1, Axis2::Y, by.y as int), c) by {}
            }
            assert(s0 == *old(self));
            let r = Vec2 { x: dx, y: dy };
            assert(old(self).blocking(sweep(b, Axis2::X, by.x as int), filter, bx) && r.x == resolve(b, Axis2::X, by.x as int, bx)
                && old(self).blocking(sweep(shifted(b, Axis2::X, r.x as int), Axis2::Y, by.y as int), filter, byy)
                && r.y == resolve(shifted(b, Axis2::X, r.x as int), Axis2::Y, by.y as int, byy));
        }
        Vec2 { x: dx, y: dy }
    }
}


/// Boxes picked from collisions that a query reports and the filter
/// admits, covering every such collision that the query must find, form a
/// blocking list.
proof fn lemma_blocking_from_picks(api: KinematicApi, q: Aabb, filter: CollisionFilter, bs: Seq<Aabb>, picked: Seq<AnyCollision>)
    requires
        picked.len() == bs.len(),
        forall|k: int| 0 <= k < picked.len() ==> api.hit(q, #[trigger] picked[k]) && filter.admits(picked[k]) && picked[k].box_spec() == bs[k],
        forall|c: AnyCollision| #[trigger] api.must_find(q, c) && filter.admits(c) ==> exists|i: int| 0 <= i < bs.len() && #[trigger] bs[i] == c.box_spec(),
    ensures
        api.blocking(q, filter, bs),
{
    assert forall|i: int| 0 <= i < bs.len() implies api.reports_box(q, filter, #[trigger] bs[i]) by {
        let c = picked[i];
        assert(api.hit(q, c) && filter.admits(c) && c.box_spec() == bs[i]);
    }
}


/// A world of the given layout with nothing in it but the air material,
/// registered first so that it takes id 0.
pub fn build(config: TileLayerConfig) -> (r: KinematicApi)
    requires
        config.ok(),
    ensures
        r.wf(),
        r.tiles().layer() == config,
        r.tiles().chunks() == Map::<(int, int), crate::world::ChunkId>::empty(),
        r.materials().count() == 1,
        r.materials().names()[0] == seq!['a', 'i', 'r'],
        r.materials().shape_of(0) is None,
        r.index().boxes() == Map::<int, Aabb>::empty(),
{
    let world = TileWorld::new(config);
    let mut registry = MaterialRegistry::new();
    let air = String::from_str("air");
    proof {
        reveal_strlit("air");
        assert(air@ == seq!['a', 'i', 'r']);
    }
    registry.register(air, None);
    let colliders = WorldColliders::new();
    let cache = MaterialCache::new();
    let r = KinematicApi { data: world, registry, colliders, cache };
    proof {
        assert forall|t: (int, int)| #[trigger] r.data.tile_at(t) == AIR by {}
    }
    r
}

impl KinematicApi {
    /// The spatial world made of these parts, with an empty shape cache.
    pub fn new(data: TileWorld, registry: MaterialRegistry, colliders: WorldColliders) -> (r: KinematicApi)
        requires
            data.wf(),
            registry.wf(),
            colliders.wf(data),
            forall|t: (int, int)| #[trigger] data.tile_at(t) == AIR || data.tile_at(t) < registry.count(),
        ensures
            r.wf(),
            r.tiles() == data,
            r.materials() == registry,
            r.index() == colliders,
    {
        KinematicApi { data, registry, colliders, cache: MaterialCache::new() }
    }

    /// The tile grid.
    pub fn world(&self) -> (r: &TileWorld)
        ensures
            *r == self.tiles(),
    {
        &self.data
    }

    /// The materials.
    pub fn registry(&self) -> (r: &MaterialRegistry)
        ensures
            *r == self.materials(),
    {
        &self.registry
    }

    /// The collider index.
    pub fn colliders(&self) -> (r: &WorldColliders)
        ensures
            *r == self.index(),
    {
        &self.colliders
    }

    /// The material at tile coordinate `pos`; air where no chunk exists.
    pub fn get_tile(&self, pos: IVec2) -> (r: MaterialId)
        requires
            self.wf(),
            pos.ok(),
        ensures
            r.0 == self.tiles().tile_at(cell(pos)),
    {
        self.data.tile(pos)
    }

    /// Writes material `m` at tile coordinate `pos`, creating its chunk if
    /// absent; `m` must be air or registered.
    pub fn set_tile(&mut self, pos: IVec2, m: MaterialId)
        requires
            old(self).wf(),
            pos.ok(),
            m.0 == AIR || m.0 < old(self).materials().count(),
            old(self).tiles().slot_count() < usize::MAX,
        ensures
            final(self).wf(),
            final(self).materials() == old(self).materials(),
            final(self).index() == old(self).index(),
            grows_from(final(self).tiles(), old(self).tiles()),
            final(self).tiles().slot_count() <= old(self).tiles().slot_count() + 1,
            forall|t: (int, int)| #[trigger]
                final(self).tiles().tile_at(t) == if t == cell(pos) {
                    m.0
                } else {
                    old(self).tiles().tile_at(t)
                },
    {
        let ghost w0 = self.data;
        self.data.set_tile(pos, m);
        proof {
            let w1 = self.data;
            let c = (crate::config::chunk_of(pos.x as int), crate::config::chunk_of(pos.y as int));
            assert forall|p: (int, int)| #[trigger] w0.chunks().contains_key(p) implies w1.chunks().contains_key(p)
                && w1.chunks()[p] == w0.chunks()[p] by {
                if !w0.chunks().contains_key(c) {
                    assert(p != c);
                }
            }
            assert(grows_from(w1, w0));
            self.colliders.lemma_wf_grow(w0, w1);
            assert forall|t: (int, int)| #[trigger] w1.tile_at(t) == AIR || w1.tile_at(t) < self.registry.count() by {
                assert(w1.tile_at(t) == if t == cell(pos) { m.0 } else { w0.tile_at(t) });
            }
        }
    }

    /// Registers a material under `name` with an optional collision shape
    /// and returns its new id.
    pub fn register_material(&mut self, name: String, shape: Option<TileColliderDescriptor>) -> (r: MaterialId)
        requires
            old(self).wf(),
            old(self).materials().count() < MAX_MATERIALS,
            match shape {
                Some(d) => d.ok(),
                None => true,
            },
        ensures
            final(self).wf(),
            r.0 == old(self).materials().count(),
            final(self).materials().names() == old(self).materials().names().push(name@),
            final(self).materials().shape_of(r.0 as int) == crate::material::shape_view(shape),
            final(self).materials().count() == old(self).materials().count() + 1,
            forall|i: int| 0 <= i < old(self).materials().count() ==> #[trigger] final(self).materials().shape_of(i) == old(self).materials().shape_of(i),
            final(self).tiles() == old(self).tiles(),
            final(self).index() == old(self).index(),
    {
        let ghost r0 = self.registry;
        let r = self.registry.register(name, shape);
        proof {
            lemma_cache_survives_register(&self.cache, &r0, &self.registry);
            assert forall|t: (int, int)| #[trigger] self.data.tile_at(t) == AIR || self.data.tile_at(t) < self.registry.count() by {
                assert(self.data.tile_at(t) == AIR || self.data.tile_at(t) < r0.count());
            }
        }
        r
    }

    /// The id most recently registered under `name`, if any.
    pub fn lookup_material_by_name(&self, name: &str) -> (r: Option<MaterialId>)
        requires
            self.wf(),
        ensures
            match r {
                Some(m) => m.0 < self.materials().count() && self.materials().names()[m.0 as int] == name@ && forall|j: int|
                    m.0 < j < self.materials().count() ==> #[trigger] self.materials().names()[j] != name@,
                None => forall|j: int| 0 <= j < self.materials().count() ==> #[trigger] self.materials().names()[j] != name@,
            },
    {
        self.registry.lookup_by_name(name)
    }

    /// Starts tracking a collider with box `b` and returns its handle.
    pub fn attach_collider(&mut self, b: Aabb) -> (r: ColliderId)
        requires
            old(self).wf(),
            b.ok(),
            old(self).tiles().slot_count() < usize::MAX,
            old(self).index().handle_count() < usize::MAX,
        ensures
            final(self).wf(),
            r == old(self).index().handle_count(),
            final(self).index().boxes() == old(self).index().boxes().insert(r as int, b),
            final(self).index().handle_count() == old(self).index().handle_count() + 1,
            final(self).materials() == old(self).materials(),
            grows_from(final(self).tiles(), old(self).tiles()),
    {
        let r = self.colliders.attach(&mut self.data, b);
        proof {
            assert forall|t: (int, int)| #[trigger] self.data.tile_at(t) == AIR || self.data.tile_at(t) < self.registry.count() by {
                assert(self.data.tile_at(t) == old(self).data.tile_at(t));
            }
        }
        r
    }

    /// Gives tracked collider `h` the box `b`.
    pub fn update_collider_box(&mut self, h: ColliderId, b: Aabb)
        requires
            old(self).wf(),
            old(self).index().boxes().contains_key(h as int),
            b.ok(),
            old(self).tiles().slot_count() < usize::MAX,
        ensures
            final(self).wf(),
            final(self).index().boxes() == old(self).index().boxes().insert(h as int, b),
            final(self).index().handle_count() == old(self).index().handle_count(),
            final(self).materials() == old(self).materials(),
            grows_from(final(self).tiles(), old(self).tiles()),
    {
        self.colliders.update_box(&mut self.data, h, b);
        proof {
            assert forall|t: (int, int)| #[trigger] self.data.tile_at(t) == AIR || self.data.tile_at(t) < self.registry.count() by {
                assert(self.data.tile_at(t) == old(self).data.tile_at(t));
            }
        }
    }

    /// Stops tracking collider `h`.
    pub fn detach_collider(&mut self, h: ColliderId)
        requires
            old(self).wf(),
            old(self).index().boxes().contains_key(h as int),
        ensures
            final(self).wf(),
            final(self).index().boxes() == old(self).index().boxes().remove(h as int),
            final(self).tiles() == old(self).tiles(),
            final(self).materials() == old(self).materials(),
    {
        self.colliders.detach(&self.data, h);
    }

    /// The tracked colliders overlapping `q`, each once with its box.
    pub fn query_region(&self, q: Aabb) -> (r: Vec<(ColliderId, Aabb)>)
        requires
            self.wf(),
            query_ok(q),
        ensures
            forall|k: int|
                0 <= k < r.len() ==> {
                    let e = #[trigger] r@[k];
                    &&& self.index().boxes().contains_key(e.0 as int)
                    &&& e.1 == self.index().boxes()[e.0 as int]
                    &&& e.1.overlaps(q)
                },
            forall|k1: int, k2: int| 0 <= k1 < k2 < r.len() ==> #[trigger] r@[k1].0 != #[trigger] r@[k2].0,
            forall|h: int|
                #[trigger] self.index().boxes().contains_key(h) && self.index().boxes()[h].overlaps(q)
                    && crate::colliders::within_margin(self.index().boxes()[h]) ==> exists|k: int|
                    0 <= k < r.len() && #[trigger] r@[k].0 == h,
    {
        self.colliders.collisions(&self.data, q)
    }

    /// Hands every queued chunk-creation notification, oldest first, to `out`.
    pub fn drain_created(&mut self, out: &mut Vec<crate::world::WorldCreatedChunk>)
        requires
            old(self).wf(),
        ensures
            final(self).wf(),
            final(out)@ == old(out)@ + old(self).tiles().events(),
            final(self).tiles().events() == Seq::<crate::world::WorldCreatedChunk>::empty(),
            final(self).tiles().chunks() == old(self).tiles().chunks(),
            final(self).materials() == old(self).materials(),
            final(self).index() == old(self).index(),
    {
        let ghost w0 = self.data;
        self.data.drain_created(out);
        proof {
            assert(grows_from(self.data, w0));
            self.colliders.lemma_wf_grow(w0, self.data);
            assert forall|t: (int, int)| #[trigger] self.data.tile_at(t) == AIR || self.data.tile_at(t) < self.registry.count() by {
                assert(self.data.tile_at(t) == w0.tile_at(t));
            }
        }
    }
}


/// Tile `t` is on the walk `path`.
pub open spec fn on_walk(path: Seq<IVec2>, t: (int, int)) -> bool {
    exists|i: int| 0 <= i < path.len() && cell(#[trigger] path[i]) == t
}

/// Length of the tile walk from `src` to `dst`.
pub open spec fn walk_len(c: TileLayerConfig, src: Vec2, dst: Vec2) -> int {
    let s = tile_at_pos(c, src);
    let t = tile_at_pos(c, dst);
    abs(t.x - s.x) + abs(t.y - s.y) + 2
}

/// The area of tile `t` shrunk by one unit on every side.
pub open spec fn inner_rect(c: TileLayerConfig, t: (int, int)) -> Aabb {
    Aabb {
        min: Vec2 { x: (t.0 * c.size + 1) as i64, y: (t.1 * c.size + 1) as i64 },
        max: Vec2 { x: (t.0 * c.size + c.size - 1) as i64, y: (t.1 * c.size + c.size - 1) as i64 },
    }
}

/// Box `b` overlaps the inner area of tile `t`; a tile one unit wide has
/// an empty inner area.
pub open spec fn inner_overlaps(c: TileLayerConfig, t: (int, int), b: Aabb) -> bool {
    c.size >= 2 && b.overlaps(inner_rect(c, t))
}

/// Bounds on the actor coordinates of a tile on a walk between two
/// positions within the movement bound.
proof fn lemma_walk_tile_bound(c: TileLayerConfig, src: Vec2, dst: Vec2, t: IVec2)
    requires
        c.ok(),
        c.size <= MOVE_BOUND,
        -MOVE_BOUND <= src.x <= MOVE_BOUND && -MOVE_BOUND <= src.y <= MOVE_BOUND,
        -MOVE_BOUND <= dst.x <= MOVE_BOUND && -MOVE_BOUND <= dst.y <= MOVE_BOUND,
        between(tile_at_pos(c, src).x as int, t.x as int, tile_at_pos(c, dst).x as int),
        between(tile_at_pos(c, src).y as int, t.y as int, tile_at_pos(c, dst).y as int),
    ensures
        -2 * MOVE_BOUND <= t.x * c.size <= MOVE_BOUND,
        -2 * MOVE_BOUND <= t.y * c.size <= MOVE_BOUND,
{
    let s = c.size as int;
    let (ax, bx) = (src.x as int, dst.x as int);
    let (ay, by) = (src.y as int, dst.y as int);
    assert(-MOVE_BOUND <= ax / s <= MOVE_BOUND && -MOVE_BOUND <= bx / s <= MOVE_BOUND) by (nonlinear_arith)
        requires s >= 1, -MOVE_BOUND <= ax <= MOVE_BOUND, -MOVE_BOUND <= bx <= MOVE_BOUND;
    assert(-MOVE_BOUND <= ay / s <= MOVE_BOUND && -MOVE_BOUND <= by / s <= MOVE_BOUND) by (nonlinear_arith)
        requires s >= 1, -MOVE_BOUND <= ay <= MOVE_BOUND, -MOVE_BOUND <= by <= MOVE_BOUND;
    assert(ax / s * s + s > ax && ax / s * s <= ax && bx / s * s + s > bx && bx / s * s <= bx) by (nonlinear_arith)
        requires s >= 1;
    assert(ay / s * s + s > ay && ay / s * s <= ay && by / s * s + s > by && by / s * s <= by) by (nonlinear_arith)
        requires s >= 1;
    if ax / s <= bx / s {
        lemma_scale_between(ax / s, t.x as int, bx / s, s);
    } else {
        lemma_scale_between(bx / s, t.x as int, ax / s, s);
    }
    if ay / s <= by / s {
        lemma_scale_between(ay / s, t.y as int, by / s, s);
    } else {
        lemma_scale_between(by / s, t.y as int, ay / s, s);
    }
}

/// A walk tile is in the range the tile grid accepts.
proof fn lemma_walk_tile_ok(c: TileLayerConfig, src: Vec2, dst: Vec2, t: IVec2)
    requires
        c.ok(),
        src.ok(),
        dst.ok(),
        between(tile_at_pos(c, src).x as int, t.x as int, tile_at_pos(c, dst).x as int),
        between(tile_at_pos(c, src).y as int, t.y as int, tile_at_pos(c, dst).y as int),
    ensures
        t.ok(),
{
    let s = c.size as int;
    let (ax, bx) = (src.x as int, dst.x as int);
    let (ay, by) = (src.y as int, dst.y as int);
    assert(coord_ok(ax / s) && coord_ok(bx / s) && coord_ok(ay / s) && coord_ok(by / s)) by (nonlinear_arith)
        requires s >= 1, coord_ok(ax), coord_ok(bx), coord_ok(ay), coord_ok(by);
}

/// Extending a prefix of a walk by one tile adds exactly that tile.
proof fn lemma_on_walk_step(path: Seq<IVec2>, i: int, t: (int, int))
    requires
        0 <= i < path.len(),
    ensures
        on_walk(path.subrange(0, i + 1), t) == (on_walk(path.subrange(0, i), t) || cell(path[i]) == t),
{
    let p0 = path.subrange(0, i);
    let p1 = path.subrange(0, i + 1);
    if on_walk(p1, t) {
        let k = choose|k: int| 0 <= k < p1.len() && cell(#[trigger] p1[k]) == t;
        if k < i {
            assert(p0[k] == p1[k]);
        }
    }
    if on_walk(p0, t) {
        let k = choose|k: int| 0 <= k < p0.len() && cell(#[trigger] p0[k]) == t;
        assert(p1[k] == p0[k]);
    }
    if cell(path[i]) == t {
        assert(p1[i] == path[i]);
    }
}

impl KinematicApi {
    /// Clears every tile on the walk from `src` to `dst` to air.
    pub fn dig_path(&mut self, src: Vec2, dst: Vec2)
        requires
            old(self).wf(),
            src.ok(),
            dst.ok(),
            old(self).tiles().slot_count() + walk_len(old(self).tiles().layer(), src, dst) < usize::MAX,
        ensures
            final(self).wf(),
            final(self).materials() == old(self).materials(),
            final(self).index() == old(self).index(),
            grows_from(final(self).tiles(), old(self).tiles()),
            exists|path: Seq<IVec2>|
                ray_walk(old(self).tiles().layer(), src, dst, path) && forall|t: (int, int)| #[trigger]
                    final(self).tiles().tile_at(t) == if on_walk(path, t) {
                        AIR
                    } else {
                        old(self).tiles().tile_at(t)
                    },
    {
        let c = self.data.config();
        let path = c.step_ray_tiles(src, dst);
        let mut i: usize = 0;
        while i < path.len()
            invariant
                self.wf(),
                c == old(self).tiles().layer(),
                c.ok(),
                src.ok() && dst.ok(),
                ray_walk(c, src, dst, path@),
                i <= path.len(),
                path.len() == walk_len(c, src, dst),
                self.tiles().slot_count() <= old(self).tiles().slot_count() + i,
                old(self).tiles().slot_count() + walk_len(c, src, dst) < usize::MAX,
                self.materials() == old(self).materials(),
                self.index() == old(self).index(),
                grows_from(self.tiles(), old(self).tiles()),
                forall|t: (int, int)| #[trigger]
                    self.tiles().tile_at(t) == if on_walk(path@.subrange(0, i as int), t) {
                        AIR
                    } else {
                        old(self).tiles().tile_at(t)
                    },
            decreases path.len() - i,
        {
            let t = path[i];
            proof {
                lemma_walk_tile_ok(c, src, dst, t);
            }
            let ghost before = self.tiles();
            self.set_tile(t, MaterialId(AIR));
            proof {
                crate::world::lemma_grows_trans(old(self).tiles(), before, self.tiles());
                assert forall|u: (int, int)| #[trigger]
                    self.tiles().tile_at(u) == if on_walk(path@.subrange(0, i + 1), u) {
                        AIR
                    } else {
                        old(self).tiles().tile_at(u)
                    } by {
                    lemma_on_walk_step(path@, i as int, u);
                }
            }
            i += 1;
        }
        proof {
            assert(path@.subrange(0, path.len() as int) =~= path@);
        }
    }

    /// Puts material `m` on each air tile of the walk from `src` to `dst`
    /// whose inner area (the tile shrunk by one unit on every side, empty
    /// for a tile one unit wide) no tracked collider overlaps. Other tiles keep
    /// their material; an air tile stays air only where a collider overlaps
    /// its inner area, and every collider no larger than twice the query
    /// margin is seen.
    pub fn place_path(&mut self, src: Vec2, dst: Vec2, m: MaterialId)
        requires
            old(self).wf(),
            m.0 != AIR,
            m.0 < old(self).materials().count(),
            old(self).tiles().layer().size <= MOVE_BOUND,
            -MOVE_BOUND <= src.x <= MOVE_BOUND && -MOVE_BOUND <= src.y <= MOVE_BOUND,
            -MOVE_BOUND <= dst.x <= MOVE_BOUND && -MOVE_BOUND <= dst.y <= MOVE_BOUND,
            old(self).tiles().slot_count() + walk_len(old(self).tiles().layer(), src, dst) < usize::MAX,
        ensures
            final(self).wf(),
            final(self).materials() == old(self).materials(),
            final(self).index() == old(self).index(),
            grows_from(final(self).tiles(), old(self).tiles()),
            exists|path: Seq<IVec2>|
                ray_walk(old(self).tiles().layer(), src, dst, path) && forall|t: (int, int)|
                    #[trigger] final(self).tiles().tile_at(t) == old(self).tiles().tile_at(t) || (on_walk(path, t)
                        && old(self).tiles().tile_at(t) == AIR && final(self).tiles().tile_at(t) == m.0
                        && forall|h: int|
                        #[trigger] old(self).index().boxes().contains_key(h) && crate::colliders::within_margin(
                            old(self).index().boxes()[h],
                        ) ==> !inner_overlaps(old(self).tiles().layer(), t, old(self).index().boxes()[h])),
            exists|path: Seq<IVec2>|
                ray_walk(old(self).tiles().layer(), src, dst, path) && forall|t: (int, int)|
                    on_walk(path, t) && old(self).tiles().tile_at(t) == AIR && #[trigger] final(self).tiles().tile_at(t)
                        == AIR ==> exists|h: int|
                        #[trigger] old(self).index().boxes().contains_key(h) && inner_overlaps(old(self).tiles().layer(), t, old(self).index().boxes()[h]),
    {
        let c = self.data.config();
        let path = c.step_ray_tiles(src, dst);
        let ghost boxes = self.index().boxes();
        let mut i: usize = 0;
        while i < path.len()
            invariant
                self.wf(),
                c == old(self).tiles().layer(),
                c.ok(),
                1 <= c.size <= MOVE_BOUND,
                m.0 != AIR,
                m.0 < old(self).materials().count(),
                -MOVE_BOUND <= src.x <= MOVE_BOUND && -MOVE_BOUND <= src.y <= MOVE_BOUND,
                -MOVE_BOUND <= dst.x <= MOVE_BOUND && -MOVE_BOUND <= dst.y <= MOVE_BOUND,
                ray_walk(c, src, dst, path@),
                i <= path.len(),
                path.len() == walk_len(c, src, dst),
                self.tiles().slot_count() <= old(self).tiles().slot_count() + i,
                old(self).tiles().slot_count() + walk_len(c, src, dst) < usize::MAX,
                self.materials() == old(self).materials(),
                self.index() == old(self).index(),
                boxes == old(self).index().boxes(),
                grows_from(self.tiles(), old(self).tiles()),
                forall|t: (int, int)|
                    #[trigger] self.tiles().tile_at(t) == old(self).tiles().tile_at(t) || (on_walk(path@.subrange(0, i as int), t)
                        && old(self).tiles().tile_at(t) == AIR && self.tiles().tile_at(t) == m.0
                        && forall|h: int| #[trigger] boxes.contains_key(h) && crate::colliders::within_margin(boxes[h])
                        ==> !inner_overlaps(c, t, boxes[h])),
                forall|t: (int, int)|
                    on_walk(path@.subrange(0, i as int), t) && old(self).tiles().tile_at(t) == AIR
                        && #[trigger] self.tiles().tile_at(t) == AIR ==> exists|h: int| #[trigger] boxes.contains_key(h) && inner_overlaps(c, t, boxes[h]),
            decreases path.len() - i,
        {
            let t = path[i];
            proof {
                lemma_walk_tile_ok(c, src, dst, t);
                lemma_walk_tile_bound(c, src, dst, t);
            }
            let x0 = t.x * c.size;
            let y0 = t.y * c.size;
            let inner = Aabb {
                min: Vec2 { x: x0 + 1, y: y0 + 1 },
                max: Vec2 { x: x0 + c.size - 1, y: y0 + c.size - 1 },
            };
            assert(inner == inner_rect(c, cell(t)));
            let ghost before = self.tiles();
            let current = self.data.tile(t);
            let blocked = if current.0 != AIR {
                true
            } else if c.size < 2 {
                false
            } else {
                let hits = self.colliders.collisions(&self.data, inner);
                if hits.len() > 0 {
                    assert(boxes.contains_key(hits@[0].0 as int));
                    true
                } else {
                    false
                }
            };
            if !blocked {
                self.set_tile(t, m);
            }
            proof {
                if !blocked {
                    crate::world::lemma_grows_trans(old(self).tiles(), before, self.tiles());
                }
                assert forall|u: (int, int)|
                    #[trigger] self.tiles().tile_at(u) == old(self).tiles().tile_at(u) || (on_walk(path@.subrange(0, i + 1), u)
                        && old(self).tiles().tile_at(u) == AIR && self.tiles().tile_at(u) == m.0
                        && forall|h: int| #[trigger] boxes.contains_key(h) && crate::colliders::within_margin(boxes[h])
                        ==> !inner_overlaps(c, u, boxes[h])) by {
                    lemma_on_walk_step(path@, i as int, u);
                    assert(before.tile_at(u) == old(self).tiles().tile_at(u) || (on_walk(path@.subrange(0, i as int), u)
                        && old(self).tiles().tile_at(u) == AIR && before.tile_at(u) == m.0
                        && forall|h: int| #[trigger] boxes.contains_key(h) && crate::colliders::within_margin(boxes[h])
                        ==> !inner_overlaps(c, u, boxes[h])));
                    if !blocked && u == cell(t) {
                        assert(before.tile_at(u) == AIR);
                    }
                }
                assert forall|u: (int, int)|
                    on_walk(path@.subrange(0, i + 1), u) && old(self).tiles().tile_at(u) == AIR
                        && #[trigger] self.tiles().tile_at(u) == AIR implies exists|h: int| #[trigger] boxes.contains_key(h) && inner_overlaps(c, u, boxes[h]) by {
                    lemma_on_walk_step(path@, i as int, u);
                    if u != cell(t) || !blocked {
                        assert(before.tile_at(u) == AIR);
                        if u != cell(t) {
                            assert(on_walk(path@.subrange(0, i as int), u));
                        }
                    }
                }
            }
            i += 1;
        }
        proof {
            assert(path@.subrange(0, path.len() as int) =~= path@);
        }
    }
}


/// A move resolved against the blocking list of its sweep never enters a
/// collision that the sweep must find: the leading face stops at the
/// collision's facing side, a full tolerance short whenever the gap
/// allowed that.
pub proof fn lemma_move_never_penetrates(
    api: KinematicApi,
    m: Aabb,
    axis: Axis2,
    d: int,
    filter: CollisionFilter,
    bs: Seq<Aabb>,
    c: AnyCollision,
)
    requires
        api.blocking(sweep(m, axis, d), filter, bs),
        api.must_find(sweep(m, axis, d), c),
        filter.admits(c),
        d >= 0 ==> m.hi(axis) <= c.box_spec().lo(axis),
        d < 0 ==> c.box_spec().hi(axis) <= m.lo(axis),
    ensures
        d >= 0 ==> m.hi(axis) + resolve(m, axis, d, bs) <= c.box_spec().lo(axis),
        d >= 0 && c.box_spec().lo(axis) - m.hi(axis) >= TOLERANCE ==> m.hi(axis) + resolve(m, axis, d, bs)
            <= c.box_spec().lo(axis) - TOLERANCE,
        d < 0 ==> m.lo(axis) + resolve(m, axis, d, bs) >= c.box_spec().hi(axis),
        d < 0 && m.lo(axis) - c.box_spec().hi(axis) >= TOLERANCE ==> m.lo(axis) + resolve(m, axis, d, bs)
            >= c.box_spec().hi(axis) + TOLERANCE,
{
    let i = choose|i: int| 0 <= i < bs.len() && #[trigger] bs[i] == c.box_spec();
    lemma_no_penetration(m, axis, d, bs, i);
}


/// The box of extent `size` by `size` centred on `p` (rounded down).
pub open spec fn centered_box(p: Vec2, size: int) -> Aabb {
    Aabb {
        min: Vec2 { x: (p.x - size / 2) as i64, y: (p.y - size / 2) as i64 },
        max: Vec2 { x: (p.x - size / 2 + size) as i64, y: (p.y - size / 2 + size) as i64 },
    }
}

impl KinematicApi {
    /// One frame of a moving square collider at `pos` with velocity `vel`:
    /// its box moves as far as `move_by` allows, is re-centred on the new
    /// position, and each velocity component whose axis the clip mask of
    /// the new box finds closed becomes zero. Returns the new position and
    /// velocity.
    pub fn step_mover(&mut self, pos: Vec2, vel: Vec2, size: i64, filter: CollisionFilter) -> (r: (Vec2, Vec2))
        requires
            old(self).wf(),
            pos.ok(),
            0 <= size <= MOVE_BOUND,
            move_box_ok(centered_box(pos, size as int)),
            step_ok(vel),
        ensures
            final(self).wf(),
            final(self).same_world(old(self)),
            ({
                let d = Vec2 { x: (r.0.x - pos.x) as i64, y: (r.0.y - pos.y) as i64 };
                &&& old(self).moved_by(centered_box(pos, size as int), vel, filter, d)
            }),
            exists|ox: bool, oy: bool|
                old(self).clip_open(centered_box(r.0, size as int), Axis2::X, vel.x as int, filter, ox)
                    && old(self).clip_open(centered_box(r.0, size as int), Axis2::Y, vel.y as int, filter, oy)
                    && r.1.x == (if ox { vel.x } else { 0 }) && r.1.y == (if oy { vel.y } else { 0 }),
    {
        let ghost s0 = *self;
        assert(0 <= size / 2 <= size) by (nonlinear_arith)
            requires size >= 0;
        let b = Aabb::new_centered(pos, Vec2 { x: size, y: size });
        assert(b == centered_box(pos, size as int));
        let d = self.move_by(b, vel, filter);
        let p2 = Vec2 { x: pos.x + d.x, y: pos.y + d.y };
        let b2 = Aabb::new_centered(p2, Vec2 { x: size, y: size });
        assert(b2 == centered_box(p2, size as int));
        let ghost s1 = *self;
        let (open_x, open_y) = self.get_clip_mask(b2, vel, filter);
        let vx = if open_x { vel.x } else { 0 };
        let vy = if open_y { vel.y } else { 0 };
        proof {
            assert(s1.tiles() == s0.tiles() && s1.materials() == s0.materials() && s1.index() == s0.index());
            assert forall|c: AnyCollision, q: Aabb| s1.hit(q, c) == s0.hit(q, c) && s1.must_find(q, c) == s0.must_find(q, c) by {}
            assert(d == Vec2 { x: (p2.x - pos.x) as i64, y: (p2.y - pos.y) as i64 });
            if !open_x {
                let c = choose|c: AnyCollision| #[trigger] s1.hit(probe(b2, Axis2::X, vel.x as int), c) && filter.admits(c);
                assert(s0.hit(probe(b2, Axis2::X, vel.x as int), c));
            }
            if !open_y {
                let c = choose|c: AnyCollision| #[trigger] s1.hit(probe(b2, Axis2::Y, vel.y as int), c) && filter.admits(c);
                assert(s0.hit(probe(b2, Axis2::Y, vel.y as int), c));
            }
            assert(s0.clip_open(b2, Axis2::X, vel.x as int, filter, open_x));
            assert(s0.clip_open(b2, Axis2::Y, vel.y as int, filter, open_y));
        }
        (p2, Vec2 { x: vx, y: vy })
    }
}


} // verus!
