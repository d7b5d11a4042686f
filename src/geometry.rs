//! Fixed-point vectors and axis-aligned boxes.
use vstd::prelude::*;

verus! {

/// Largest magnitude of a coordinate that the library accepts as input.
pub const MAX_COORD: i64 = 1099511627776;

/// A coordinate is in range when its magnitude is at most `MAX_COORD`.
pub open spec fn coord_ok(v: int) -> bool {
    -(MAX_COORD as int) <= v <= MAX_COORD as int
}

/// Integer 2D vector: tile, chunk and chunk-local coordinates.
#[derive(Clone, Copy, Debug, PartialEq, Eq, Structural)]
pub struct IVec2 {
    pub x: i64,
    pub y: i64,
}

/// Fixed-point 2D vector: actor positions and displacements, in hundredths
/// of a world unit.
#[derive(Clone, Copy, Debug, PartialEq, Eq, Structural)]
pub struct Vec2 {
    pub x: i64,
    pub y: i64,
}

/// One of the two axes.
#[derive(Clone, Copy, Debug, PartialEq, Eq, Structural)]
pub enum Axis2 {
    X,
    Y,
}

impl IVec2 {
    pub open spec fn ok(self) -> bool {
        coord_ok(self.x as int) && coord_ok(self.y as int)
    }

    pub fn new(x: i64, y: i64) -> (r: IVec2)
        ensures
            r.x == x && r.y == y,
    {
        IVec2 { x, y }
    }
}

impl Vec2 {
    pub open spec fn ok(self) -> bool {
        coord_ok(self.x as int) && coord_ok(self.y as int)
    }

    pub open spec fn axis(self, axis: Axis2) -> int {
        match axis {
            Axis2::X => self.x as int,
            Axis2::Y => self.y as int,
        }
    }

    pub fn new(x: i64, y: i64) -> (r: Vec2)
        ensures
            r.x == x && r.y == y,
    {
        Vec2 { x, y }
    }

    /// Whether both components are in range.
    pub fn in_range(&self) -> (r: bool)
        ensures
            r == self.ok(),
    {
        -MAX_COORD <= self.x && self.x <= MAX_COORD && -MAX_COORD <= self.y && self.y <= MAX_COORD
    }

    /// The component of this vector along `axis`.
    pub fn get_axis(&self, axis: Axis2) -> (r: i64)
        ensures
            r == self.axis(axis),
    {
        match axis {
            Axis2::X => self.x,
            Axis2::Y => self.y,
        }
    }
}

impl Axis2 {
    /// The vector of length `mag` along this axis.
    pub fn unit_mag(self, mag: i64) -> (r: Vec2)
        ensures
            r.axis(self) == mag,
            r.axis(self.other()) == 0,
    {
        match self {
            Axis2::X => Vec2 { x: mag, y: 0 },
            Axis2::Y => Vec2 { x: 0, y: mag },
        }
    }

    pub open spec fn other(self) -> Axis2 {
        match self {
            Axis2::X => Axis2::Y,
            Axis2::Y => Axis2::X,
        }
    }
}

/// Axis-aligned box given by its two corners.
#[derive(Clone, Copy, Debug, PartialEq, Eq, Structural)]
pub struct Aabb {
    pub min: Vec2,
    pub max: Vec2,
}

/// Two closed-open intervals `[a0, a1)` and `[b0, b1)` share an interior point.
pub open spec fn spans_overlap(a0: int, a1: int, b0: int, b1: int) -> bool {
    a0 < b1 && b0 < a1
}

impl Aabb {
    /// Both corners are in range and `min` is not above `max` on either axis.
    pub open spec fn ok(self) -> bool {
        self.min.ok() && self.max.ok() && self.min.x <= self.max.x && self.min.y <= self.max.y
    }

    /// The two boxes overlap with positive area; boxes that only touch do not.
    pub open spec fn overlaps(self, o: Aabb) -> bool {
        spans_overlap(self.min.x as int, self.max.x as int, o.min.x as int, o.max.x as int)
            && spans_overlap(self.min.y as int, self.max.y as int, o.min.y as int, o.max.y as int)
    }

    /// The closed box holds the point.
    pub open spec fn holds(self, p: Vec2) -> bool {
        self.min.x <= p.x <= self.max.x && self.min.y <= p.y <= self.max.y
    }

    pub open spec fn lo(self, axis: Axis2) -> int {
        self.min.axis(axis)
    }

    pub open spec fn hi(self, axis: Axis2) -> int {
        self.max.axis(axis)
    }

    pub fn new(min: Vec2, max: Vec2) -> (r: Aabb)
        ensures
            r.min == min && r.max == max,
    {
        Aabb { min, max }
    }

    /// The box with corner `min` and extent `size`.
    pub fn new_sized(min: Vec2, size: Vec2) -> (r: Aabb)
        requires
            min.ok(),
            size.ok(),
        ensures
            r.min == min,
            r.max.x == min.x + size.x,
            r.max.y == min.y + size.y,
    {
        Aabb { min, max: Vec2 { x: min.x + size.x, y: min.y + size.y } }
    }

    /// The box of extent `size` whose center is `center` (rounded down).
    pub fn new_centered(center: Vec2, size: Vec2) -> (r: Aabb)
        requires
            center.ok(),
            size.ok(),
            size.x >= 0,
            size.y >= 0,
        ensures
            r.min.x == center.x - size.x / 2,
            r.min.y == center.y - size.y / 2,
            r.max.x == r.min.x + size.x,
            r.max.y == r.min.y + size.y,
    {
        let min = Vec2 { x: center.x - size.x / 2, y: center.y - size.y / 2 };
        Aabb { min, max: Vec2 { x: min.x + size.x, y: min.y + size.y } }
    }

    /// Whether the two boxes overlap with positive area.
    pub fn intersects(&self, o: &Aabb) -> (r: bool)
        ensures
            r == self.overlaps(*o),
    {
        self.min.x < o.max.x && o.min.x < self.max.x && self.min.y < o.max.y && o.min.y
            < self.max.y
    }

    /// Whether the closed box holds the point.
    pub fn contains(&self, p: Vec2) -> (r: bool)
        ensures
            r == self.holds(p),
    {
        self.min.x <= p.x && p.x <= self.max.x && self.min.y <= p.y && p.y <= self.max.y
    }

    /// The box moved by `by`.
    pub fn translated(&self, by: Vec2) -> (r: Aabb)
        requires
            self.ok(),
            by.ok(),
        ensures
            r.min.x == self.min.x + by.x,
            r.min.y == self.min.y + by.y,
            r.max.x == self.max.x + by.x,
            r.max.y == self.max.y + by.y,
    {
        Aabb {
            min: Vec2 { x: self.min.x + by.x, y: self.min.y + by.y },
            max: Vec2 { x: self.max.x + by.x, y: self.max.y + by.y },
        }
    }

    /// The box with each face pushed out by `by` on its axis.
    pub fn grow(&self, by: Vec2) -> (r: Aabb)
        requires
            self.ok(),
            by.ok(),
        ensures
            r.min.x == self.min.x - by.x,
            r.min.y == self.min.y - by.y,
            r.max.x == self.max.x + by.x,
            r.max.y == self.max.y + by.y,
    {
        Aabb {
            min: Vec2 { x: self.min.x - by.x, y: self.min.y - by.y },
            max: Vec2 { x: self.max.x + by.x, y: self.max.y + by.y },
        }
    }

    /// The box stretched by `by`: each component extends the face it points
    /// at (the maximum for a positive component, the minimum for a negative
    /// one), so the result covers the box and the box moved by `by`.
    pub fn translate_extend(&self, by: Vec2) -> (r: Aabb)
        requires
            self.ok(),
            by.ok(),
        ensures
            r.min.x == if by.x < 0 { self.min.x + by.x } else { self.min.x as int },
            r.max.x == if by.x > 0 { self.max.x + by.x } else { self.max.x as int },
            r.min.y == if by.y < 0 { self.min.y + by.y } else { self.min.y as int },
            r.max.y == if by.y > 0 { self.max.y + by.y } else { self.max.y as int },
    {
        let min_x = if by.x < 0 { self.min.x + by.x } else { self.min.x };
        let max_x = if by.x > 0 { self.max.x + by.x } else { self.max.x };
        let min_y = if by.y < 0 { self.min.y + by.y } else { self.min.y };
        let max_y = if by.y > 0 { self.max.y + by.y } else { self.max.y };
        Aabb { min: Vec2 { x: min_x, y: min_y }, max: Vec2 { x: max_x, y: max_y } }
    }

    /// The midpoint of the box, rounded toward negative infinity.
    pub fn center(&self) -> (r: Vec2)
        requires
            self.ok(),
        ensures
            r.x == (self.min.x + self.max.x) / 2,
            r.y == (self.min.y + self.max.y) / 2,
            self.holds(r),
    {
        let sx = self.min.x + self.max.x;
        let sy = self.min.y + self.max.y;
        let x = if sx >= 0 { sx / 2 } else { -((-sx + 1) / 2) };
        let y = if sy >= 0 { sy / 2 } else { -((-sy + 1) / 2) };
        Vec2 { x, y }
    }
}

} // verus!
