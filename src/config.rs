//! Conversions between actor positions, tile coordinates and chunk
//! coordinates, and discrete ray stepping across tile boundaries.
use vstd::prelude::*;
use crate::geometry::{coord_ok, Aabb, Axis2, IVec2, Vec2, MAX_COORD};

verus! {

/// Edge length of a chunk, in tiles.
pub const CHUNK_EDGE: i64 = 16;

/// Number of tiles in a chunk.
pub const CHUNK_AREA: usize = 256;

/// `a` divided by the positive `b`, rounded toward negative infinity.
pub open spec fn floor_div(a: int, b: int) -> int {
    a / b
}

/// Floor division of an in-range value by a positive in-range divisor.
pub fn div_floor(a: i64, b: i64) -> (q: i64)
    requires
        coord_ok(a as int),
        1 <= b <= MAX_COORD,
    ensures
        q == floor_div(a as int, b as int),
        q * b <= a < q * b + b,
        coord_ok(q as int),
{
    if a >= 0 {
        let q = a / b;
        assert(q * b <= a < q * b + b) by (nonlinear_arith)
            requires a >= 0, b >= 1, q == a / b;
        assert(0 <= q <= a) by (nonlinear_arith)
            requires a >= 0, b >= 1, q == a / b;
        q
    } else {
        let n = -a - 1;
        let p = n / b;
        let q = -p - 1;
        assert(p * b <= n < p * b + b) by (nonlinear_arith)
            requires n >= 0, b >= 1, p == n / b;
        assert(0 <= p <= n) by (nonlinear_arith)
            requires n >= 0, b >= 1, p == n / b;
        assert(q * b <= a < q * b + b) by (nonlinear_arith)
            requires q == -p - 1, n == -a - 1, p * b <= n < p * b + b;
        assert(q == a / b) by (nonlinear_arith)
            requires q * b <= a < q * b + b, b >= 1;
        q
    }
}

/// Floor division by a positive divisor does not decrease as the dividend grows.
pub proof fn lemma_floor_div_monotone(a: int, b: int, s: int)
    requires
        s >= 1,
        a <= b,
    ensures
        floor_div(a, s) <= floor_div(b, s),
{
    assert(a / s <= b / s) by (nonlinear_arith)
        requires s >= 1, a <= b;
}

/// The side of a tile that a ray crosses, and the direction it then moves in.
#[derive(Clone, Copy, Debug, PartialEq, Eq, Structural)]
pub enum TileFace {
    /// Toward negative x.
    Left,
    /// Toward positive x.
    Right,
    /// Toward negative y.
    Top,
    /// Toward positive y.
    Bottom,
}

/// The four faces, in the order of their slot numbers.
pub open spec fn face_of_slot(i: int) -> TileFace {
    if i == 0 {
        TileFace::Left
    } else if i == 1 {
        TileFace::Right
    } else if i == 2 {
        TileFace::Top
    } else {
        TileFace::Bottom
    }
}

impl TileFace {
    pub open spec fn dx(self) -> int {
        match self {
            TileFace::Left => -1,
            TileFace::Right => 1,
            _ => 0,
        }
    }

    pub open spec fn dy(self) -> int {
        match self {
            TileFace::Top => -1,
            TileFace::Bottom => 1,
            _ => 0,
        }
    }

    pub open spec fn slot(self) -> int {
        match self {
            TileFace::Left => 0,
            TileFace::Right => 1,
            TileFace::Top => 2,
            TileFace::Bottom => 3,
        }
    }

    pub open spec fn opposite(self) -> TileFace {
        match self {
            TileFace::Left => TileFace::Right,
            TileFace::Right => TileFace::Left,
            TileFace::Top => TileFace::Bottom,
            TileFace::Bottom => TileFace::Top,
        }
    }

    /// The face on `axis` that a motion of sign `positive` crosses.
    pub open spec fn of(axis: Axis2, positive: bool) -> TileFace {
        match axis {
            Axis2::X => if positive { TileFace::Right } else { TileFace::Left },
            Axis2::Y => if positive { TileFace::Bottom } else { TileFace::Top },
        }
    }

    /// The face on `axis` that a motion of sign `positive` crosses.
    pub fn compose(axis: Axis2, positive: bool) -> (r: TileFace)
        ensures
            r == TileFace::of(axis, positive),
    {
        match axis {
            Axis2::X => if positive { TileFace::Right } else { TileFace::Left },
            Axis2::Y => if positive { TileFace::Bottom } else { TileFace::Top },
        }
    }

    /// The slot number of this face (0 to 3).
    pub fn index(self) -> (r: usize)
        ensures
            r == self.slot(),
            face_of_slot(r as int) == self,
    {
        match self {
            TileFace::Left => 0,
            TileFace::Right => 1,
            TileFace::Top => 2,
            TileFace::Bottom => 3,
        }
    }

    /// The face with the given slot number.
    pub fn from_slot(i: usize) -> (r: TileFace)
        requires
            i < 4,
        ensures
            r == face_of_slot(i as int),
            r.slot() == i,
    {
        if i == 0 {
            TileFace::Left
        } else if i == 1 {
            TileFace::Right
        } else if i == 2 {
            TileFace::Top
        } else {
            TileFace::Bottom
        }
    }

    /// The face pointing the other way.
    pub fn invert(self) -> (r: TileFace)
        ensures
            r == self.opposite(),
            r.dx() == -self.dx(),
            r.dy() == -self.dy(),
    {
        match self {
            TileFace::Left => TileFace::Right,
            TileFace::Right => TileFace::Left,
            TileFace::Top => TileFace::Bottom,
            TileFace::Bottom => TileFace::Top,
        }
    }

    /// The unit step across this face.
    pub fn as_ivec(self) -> (r: IVec2)
        ensures
            r.x == self.dx(),
            r.y == self.dy(),
    {
        match self {
            TileFace::Left => IVec2 { x: -1, y: 0 },
            TileFace::Right => IVec2 { x: 1, y: 0 },
            TileFace::Top => IVec2 { x: 0, y: -1 },
            TileFace::Bottom => IVec2 { x: 0, y: 1 },
        }
    }
}

/// Size and placement of the tile grid in actor space.
#[derive(Clone, Copy, Debug, PartialEq, Eq, Structural)]
pub struct TileLayerConfig {
    /// Edge length of one tile, in actor units.
    pub size: i64,
    /// Placement of the grid; carried for consumers, not applied by the
    /// conversions below.
    pub offset: Vec2,
}

/// The chunk coordinate and chunk-local coordinate of a tile coordinate.
pub open spec fn chunk_of(t: int) -> int {
    floor_div(t, CHUNK_EDGE as int)
}

pub open spec fn local_of(t: int) -> int {
    t - CHUNK_EDGE * chunk_of(t)
}

/// The tile coordinate of a chunk coordinate and a chunk-local coordinate.
pub open spec fn compose(chunk: IVec2, local: IVec2) -> (int, int) {
    (chunk.x * CHUNK_EDGE + local.x, chunk.y * CHUNK_EDGE + local.y)
}

/// A chunk-local coordinate lies inside the chunk.
pub open spec fn local_ok(l: IVec2) -> bool {
    0 <= l.x < CHUNK_EDGE && 0 <= l.y < CHUNK_EDGE
}

/// Position of a chunk-local coordinate in the chunk's row-major tile array.
pub open spec fn tile_slot(l: IVec2) -> int {
    l.y * CHUNK_EDGE + l.x
}

impl TileLayerConfig {
    /// Tile size is positive and in range.
    pub open spec fn ok(self) -> bool {
        1 <= self.size <= MAX_COORD
    }

    pub open spec fn tile_of(self, v: int) -> int {
        floor_div(v, self.size as int)
    }

    /// A configuration with the given tile size and no offset.
    pub fn from_size(size: i64) -> (r: TileLayerConfig)
        ensures
            r.size == size,
            r.offset == (Vec2 { x: 0, y: 0 }),
    {
        TileLayerConfig { size, offset: Vec2 { x: 0, y: 0 } }
    }

    /// The tile index along one axis that holds the actor coordinate `value`.
    pub fn actor_to_tile_axis(&self, axis: Axis2, value: i64) -> (r: i64)
        requires
            self.ok(),
            coord_ok(value as int),
        ensures
            r == self.tile_of(value as int),
            r * self.size <= value < r * self.size + self.size,
            coord_ok(r as int),
    {
        let _ = axis;
        div_floor(value, self.size)
    }

    /// The tile that holds the actor position `p`.
    pub fn actor_to_tile(&self, p: Vec2) -> (r: IVec2)
        requires
            self.ok(),
            p.ok(),
        ensures
            r.x == self.tile_of(p.x as int),
            r.y == self.tile_of(p.y as int),
            r.ok(),
    {
        IVec2 {
            x: self.actor_to_tile_axis(Axis2::X, p.x),
            y: self.actor_to_tile_axis(Axis2::Y, p.y),
        }
    }

    /// The tiles that hold the two corners of a box.
    pub fn actor_aabb_to_tile(&self, b: Aabb) -> (r: (IVec2, IVec2))
        requires
            self.ok(),
            b.ok(),
        ensures
            r.0.x == self.tile_of(b.min.x as int),
            r.0.y == self.tile_of(b.min.y as int),
            r.1.x == self.tile_of(b.max.x as int),
            r.1.y == self.tile_of(b.max.y as int),
            r.0.ok() && r.1.ok(),
            r.0.x <= r.1.x && r.0.y <= r.1.y,
    {
        proof {
            lemma_floor_div_monotone(b.min.x as int, b.max.x as int, self.size as int);
            lemma_floor_div_monotone(b.min.y as int, b.max.y as int, self.size as int);
        }
        (self.actor_to_tile(b.min), self.actor_to_tile(b.max))
    }

    /// The square area of actor space covered by tile `t`.
    pub fn tile_to_actor_rect(&self, t: IVec2) -> (r: Aabb)
        requires
            self.ok(),
            t.ok(),
            coord_ok(t.x * self.size),
            coord_ok(t.y * self.size),
        ensures
            r.min.x == t.x * self.size,
            r.min.y == t.y * self.size,
            r.max.x == r.min.x + self.size,
            r.max.y == r.min.y + self.size,
    {
        Aabb::new_sized(
            Vec2 { x: t.x * self.size, y: t.y * self.size },
            Vec2 { x: self.size, y: self.size },
        )
    }

    /// Splits a tile coordinate into its chunk coordinate and its position
    /// inside that chunk.
    pub fn decompose_world_pos(v: IVec2) -> (r: (IVec2, IVec2))
        requires
            v.ok(),
        ensures
            r.0.x == chunk_of(v.x as int),
            r.0.y == chunk_of(v.y as int),
            r.1.x == local_of(v.x as int),
            r.1.y == local_of(v.y as int),
            local_ok(r.1),
            compose(r.0, r.1) == (v.x as int, v.y as int),
            r.0.ok(),
    {
        let cx = div_floor(v.x, CHUNK_EDGE);
        let cy = div_floor(v.y, CHUNK_EDGE);
        (IVec2 { x: cx, y: cy }, IVec2 { x: v.x - cx * CHUNK_EDGE, y: v.y - cy * CHUNK_EDGE })
    }

    /// Position of a chunk-local coordinate in the chunk's tile array.
    pub fn to_tile_index(v: IVec2) -> (r: usize)
        requires
            local_ok(v),
        ensures
            r == tile_slot(v),
            r < CHUNK_AREA,
    {
        (v.y * CHUNK_EDGE + v.x) as usize
    }

    /// The chunk coordinate and chunk-local coordinate of the tile holding `p`.
    pub fn actor_to_decomposed(&self, p: Vec2) -> (r: (IVec2, IVec2))
        requires
            self.ok(),
            p.ok(),
        ensures
            r.0.x == chunk_of(self.tile_of(p.x as int)),
            r.0.y == chunk_of(self.tile_of(p.y as int)),
            local_ok(r.1),
            compose(r.0, r.1) == (self.tile_of(p.x as int), self.tile_of(p.y as int)),
    {
        Self::decompose_world_pos(self.actor_to_tile(p))
    }
}

/// Composing a decomposition gives back the tile coordinate.
pub proof fn lemma_compose_decompose(t: IVec2)
    ensures
        compose(
            IVec2 { x: chunk_of(t.x as int) as i64, y: chunk_of(t.y as int) as i64 },
            IVec2 { x: local_of(t.x as int) as i64, y: local_of(t.y as int) as i64 },
        ) == (t.x as int, t.y as int),
        0 <= local_of(t.x as int) < CHUNK_EDGE,
        0 <= local_of(t.y as int) < CHUNK_EDGE,
{
    lemma_split_axis(t.x as int);
    lemma_split_axis(t.y as int);
}

/// A tile coordinate splits into a chunk coordinate and a local offset in `0..CHUNK_EDGE`.
pub proof fn lemma_split_axis(v: int)
    requires
        -0x8000_0000_0000_0000 <= v <= 0x7fff_ffff_ffff_ffff,
    ensures
        0 <= local_of(v) < CHUNK_EDGE,
        -0x8000_0000_0000_0000 <= chunk_of(v) <= 0x7fff_ffff_ffff_ffff,
        chunk_of(v) * CHUNK_EDGE + local_of(v) == v,
{
    let e = CHUNK_EDGE as int;
    assert(0 <= v - e * (v / e) < e) by (nonlinear_arith)
        requires e == 16;
    assert(v / e * e == e * (v / e)) by (nonlinear_arith);
    assert(-0x8000_0000_0000_0000 <= v / e <= 0x7fff_ffff_ffff_ffff) by (nonlinear_arith)
        requires e == 16, -0x8000_0000_0000_0000 <= v <= 0x7fff_ffff_ffff_ffff;
}

/// Every actor position lies in the rectangle of the tile that holds it.
pub proof fn lemma_tile_rect_holds(c: TileLayerConfig, p: Vec2)
    requires
        c.ok(),
        p.ok(),
    ensures
        ({
            let tx = c.tile_of(p.x as int);
            let ty = c.tile_of(p.y as int);
            tx * c.size <= p.x <= tx * c.size + c.size && ty * c.size <= p.y <= ty * c.size
                + c.size
        }),
{
    let s = c.size as int;
    let px = p.x as int;
    let py = p.y as int;
    assert(px / s * s <= px < px / s * s + s) by (nonlinear_arith)
        requires s >= 1;
    assert(py / s * s <= py < py / s * s + s) by (nonlinear_arith)
        requires s >= 1;
}

} // verus!
