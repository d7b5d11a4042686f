//! Discrete ray stepping: the tile boundaries that a segment crosses, in
//! the order in which it reaches them.
use vstd::prelude::*;
use crate::config::{TileFace, TileLayerConfig, floor_div, lemma_floor_div_monotone};
use crate::geometry::{coord_ok, Axis2, IVec2, Vec2, MAX_COORD};
use crate::small::{crossing_items, crossings_new, crossings_push, Crossings};

verus! {

pub open spec fn abs(v: int) -> int {
    if v < 0 { -v } else { v }
}

/// One tile boundary crossed by a ray.
///
/// The ray reaches the boundary at `origin + delta * dist_num / dist_den`;
/// `boundary` is the coordinate of the crossed face on its own axis.
#[derive(Clone, Copy, Debug, PartialEq, Eq, Structural)]
pub struct RayIntersection {
    pub face: TileFace,
    pub entered_tile: IVec2,
    pub boundary: i64,
    pub dist_num: i64,
    pub dist_den: i64,
}

/// The first tile boundary on an axis that a motion of sign `d` leaves
/// tile `tile` through.
pub open spec fn next_boundary(c: TileLayerConfig, tile: int, d: int) -> int {
    if d > 0 { (tile + 1) * c.size } else { tile * c.size }
}

/// Distance along the axis from `start` to that boundary.
pub open spec fn gap_to_boundary(c: TileLayerConfig, tile: int, start: int, d: int) -> int {
    abs(next_boundary(c, tile, d) - start)
}

/// Leaving tile `cur`, a ray from `start` along `d` reaches the next y
/// boundary strictly before the next x boundary (ties go to x).
pub open spec fn y_first(c: TileLayerConfig, cur: IVec2, start: Vec2, d: Vec2) -> bool {
    gap_to_boundary(c, cur.y as int, start.y as int, d.y as int) * abs(d.x as int)
        < gap_to_boundary(c, cur.x as int, start.x as int, d.x as int) * abs(d.y as int)
}

/// The segment from `o` to `o + d` leaves its starting tile on `axis`.
pub open spec fn crosses_axis(c: TileLayerConfig, o: int, d: int) -> bool {
    c.tile_of(o) != c.tile_of(o + d)
}

/// The crossing on `axis` of a segment that starts in tile `t`, given the
/// tile it then enters.
pub open spec fn crossing_on(
    c: TileLayerConfig,
    axis: Axis2,
    t: IVec2,
    o: Vec2,
    d: Vec2,
    entered: IVec2,
) -> RayIntersection {
    let tile = match axis {
        Axis2::X => t.x as int,
        Axis2::Y => t.y as int,
    };
    RayIntersection {
        face: TileFace::of(axis, d.axis(axis) >= 0),
        entered_tile: entered,
        boundary: next_boundary(c, tile, d.axis(axis)) as i64,
        dist_num: gap_to_boundary(c, tile, o.axis(axis), d.axis(axis)) as i64,
        dist_den: abs(d.axis(axis)) as i64,
    }
}

pub open spec fn step_tile(t: IVec2, f: TileFace) -> IVec2 {
    IVec2 { x: (t.x + f.dx()) as i64, y: (t.y + f.dy()) as i64 }
}

/// The crossings of the segment from `o` to `o + d`: at most one per axis,
/// nearest first, x first on a tie, each naming the tile it enters.
pub open spec fn ray_crossings(c: TileLayerConfig, o: Vec2, d: Vec2) -> Seq<RayIntersection> {
    let t = IVec2 { x: c.tile_of(o.x as int) as i64, y: c.tile_of(o.y as int) as i64 };
    let cx = crosses_axis(c, o.x as int, d.x as int);
    let cy = crosses_axis(c, o.y as int, d.y as int);
    let fx = TileFace::of(Axis2::X, d.x >= 0);
    let fy = TileFace::of(Axis2::Y, d.y >= 0);
    if cx && cy {
        if y_first(c, t, o, d) {
            seq![
                crossing_on(c, Axis2::Y, t, o, d, step_tile(t, fy)),
                crossing_on(c, Axis2::X, t, o, d, step_tile(step_tile(t, fy), fx)),
            ]
        } else {
            seq![
                crossing_on(c, Axis2::X, t, o, d, step_tile(t, fx)),
                crossing_on(c, Axis2::Y, t, o, d, step_tile(step_tile(t, fx), fy)),
            ]
        }
    } else if cx {
        seq![crossing_on(c, Axis2::X, t, o, d, step_tile(t, fx))]
    } else if cy {
        seq![crossing_on(c, Axis2::Y, t, o, d, step_tile(t, fy))]
    } else {
        seq![]
    }
}

/// Walking from tile `cur` toward tile `dest` along the ray from `src` in
/// direction `d`, the next step crosses an x boundary.
pub open spec fn steps_x(c: TileLayerConfig, cur: IVec2, dest: IVec2, src: Vec2, d: Vec2) -> bool {
    cur.x != dest.x && (cur.y == dest.y || !y_first(c, cur, src, d))
}

/// The tile entered by the next step of that walk.
pub open spec fn walk_step(c: TileLayerConfig, cur: IVec2, dest: IVec2, src: Vec2, d: Vec2) -> IVec2 {
    if steps_x(c, cur, dest, src, d) {
        step_tile(cur, TileFace::of(Axis2::X, d.x >= 0))
    } else {
        step_tile(cur, TileFace::of(Axis2::Y, d.y >= 0))
    }
}

/// `cur` lies between `s` and `t` on the side that a motion of sign `d` reaches.
pub open spec fn on_path(s: int, cur: int, t: int, d: int) -> bool {
    &&& d > 0 ==> s <= cur <= t
    &&& d < 0 ==> t <= cur <= s
    &&& d == 0 ==> s == cur && cur == t
}

/// The tile holding actor position `p`.
pub open spec fn tile_at_pos(c: TileLayerConfig, p: Vec2) -> IVec2 {
    IVec2 { x: c.tile_of(p.x as int) as i64, y: c.tile_of(p.y as int) as i64 }
}

/// `v` lies between `a` and `b`, in either order.
pub open spec fn between(a: int, v: int, b: int) -> bool {
    (a <= v <= b) || (b <= v <= a)
}

/// `r` is the tile walk of the segment from `src` to `dst`: the tile
/// holding `src`, then each tile entered across a boundary in the order
/// the segment reaches the boundaries (x first on a tie), then the tile
/// holding `dst` once more. Every tile of the walk lies between the two
/// end tiles on both axes.
pub open spec fn ray_walk(c: TileLayerConfig, src: Vec2, dst: Vec2, r: Seq<IVec2>) -> bool {
    let s = tile_at_pos(c, src);
    let t = tile_at_pos(c, dst);
    let d = Vec2 { x: (dst.x - src.x) as i64, y: (dst.y - src.y) as i64 };
    &&& r.len() == abs(t.x - s.x) + abs(t.y - s.y) + 2
    &&& r[0] == s
    &&& r[r.len() - 2] == t
    &&& r[r.len() - 1] == t
    &&& forall|i: int| 0 <= i < r.len() - 2 ==> #[trigger] r[i + 1] == walk_step(c, r[i], t, src, d)
    &&& forall|i: int| 0 <= i < r.len() ==> between(s.x as int, (#[trigger] r[i]).x as int, t.x as int) && between(s.y as int, r[i].y as int, t.y as int)
}

/// `a * s` stays between `lo * s` and `hi * s` when `a` stays between `lo` and `hi`.
proof fn lemma_mul_between(lo: int, a: int, hi: int, s: int)
    requires
        lo <= a <= hi,
        s >= 1,
    ensures
        lo * s <= a * s <= hi * s,
{
    assert(lo * s <= a * s <= hi * s) by (nonlinear_arith)
        requires lo <= a <= hi, s >= 1;
}

/// Facts about the boundary that a tile between two in-range tiles is left through.
proof fn lemma_boundary_bounds(c: TileLayerConfig, lo: int, tile: int, hi: int, d: int)
    requires
        c.ok(),
        coord_ok(lo) && coord_ok(hi),
        c.tile_of(lo) <= tile <= c.tile_of(hi),
    ensures
        -4 * MAX_COORD <= next_boundary(c, tile, d) <= 4 * MAX_COORD,
        -4 * MAX_COORD <= tile * c.size <= 4 * MAX_COORD,
        -4 * MAX_COORD <= (tile + 1) * c.size <= 4 * MAX_COORD,
        -MAX_COORD <= tile <= MAX_COORD,
{
    let s = c.size as int;
    assert(c.tile_of(lo) * s <= lo < c.tile_of(lo) * s + s) by (nonlinear_arith)
        requires s >= 1, c.tile_of(lo) == lo / s;
    assert(c.tile_of(hi) * s <= hi < c.tile_of(hi) * s + s) by (nonlinear_arith)
        requires s >= 1, c.tile_of(hi) == hi / s;
    lemma_mul_between(c.tile_of(lo), tile, c.tile_of(hi), s);
    assert((tile + 1) * s == tile * s + s) by (nonlinear_arith);
    assert(-MAX_COORD <= c.tile_of(lo) && c.tile_of(hi) <= MAX_COORD) by (nonlinear_arith)
        requires
            s >= 1,
            c.tile_of(lo) * s <= lo < c.tile_of(lo) * s + s,
            c.tile_of(hi) * s <= hi < c.tile_of(hi) * s + s,
            -MAX_COORD <= lo, hi <= MAX_COORD;
}

impl TileLayerConfig {
    /// The tile boundaries crossed by the segment from `origin` to
    /// `origin + delta`: at most one per axis, ordered by how far along the
    /// segment they lie (x first on a tie), each with the tile it enters.
    pub fn step_ray(&self, origin: Vec2, delta: Vec2) -> (r: Crossings)
        requires
            self.ok(),
            origin.ok(),
            delta.ok(),
            coord_ok(origin.x + delta.x),
            coord_ok(origin.y + delta.y),
        ensures
            crossing_items(r) == ray_crossings(*self, origin, delta),
    {
        let t = self.actor_to_tile(origin);
        let dest = Vec2 { x: origin.x + delta.x, y: origin.y + delta.y };
        let dt = self.actor_to_tile(dest);
        let cx = t.x != dt.x;
        let cy = t.y != dt.y;
        let fx = TileFace::compose(Axis2::X, delta.x >= 0);
        let fy = TileFace::compose(Axis2::Y, delta.y >= 0);
        let mut out = crossings_new();
        if cx && cy {
            if self.y_before_x(t, origin, delta) {
                let e1 = step(t, fy);
                crossings_push(&mut out, self.crossing(Axis2::Y, t, origin, delta, e1));
                crossings_push(&mut out, self.crossing(Axis2::X, t, origin, delta, step(e1, fx)));
            } else {
                let e1 = step(t, fx);
                crossings_push(&mut out, self.crossing(Axis2::X, t, origin, delta, e1));
                crossings_push(&mut out, self.crossing(Axis2::Y, t, origin, delta, step(e1, fy)));
            }
        } else if cx {
            crossings_push(&mut out, self.crossing(Axis2::X, t, origin, delta, step(t, fx)));
        } else if cy {
            crossings_push(&mut out, self.crossing(Axis2::Y, t, origin, delta, step(t, fy)));
        }
        assert(crossing_items(out) =~= ray_crossings(*self, origin, delta));
        out
    }

    /// The tiles that the segment from `src` to `dst` passes through: the
    /// tile holding `src`, then each tile entered across a boundary in the
    /// order the segment reaches the boundaries (x first on a tie), then
    /// the tile holding `dst` once more, so that the destination is always
    /// visited last.
    pub fn step_ray_tiles(&self, src: Vec2, dst: Vec2) -> (r: Vec<IVec2>)
        requires
            self.ok(),
            src.ok(),
            dst.ok(),
        ensures
            ray_walk(*self, src, dst, r@),
    {
        let s = self.actor_to_tile(src);
        let t = self.actor_to_tile(dst);
        let d = Vec2 { x: dst.x - src.x, y: dst.y - src.y };
        let fx = TileFace::compose(Axis2::X, d.x >= 0);
        let fy = TileFace::compose(Axis2::Y, d.y >= 0);
        proof {
            if src.x <= dst.x {
                lemma_floor_div_monotone(src.x as int, dst.x as int, self.size as int);
            } else {
                lemma_floor_div_monotone(dst.x as int, src.x as int, self.size as int);
            }
            if src.y <= dst.y {
                lemma_floor_div_monotone(src.y as int, dst.y as int, self.size as int);
            } else {
                lemma_floor_div_monotone(dst.y as int, src.y as int, self.size as int);
            }
        }
        let mut out: Vec<IVec2> = Vec::new();
        out.push(s);
        let mut cur = s;
        while cur.x != t.x || cur.y != t.y
            invariant
                self.ok(),
                src.ok(),
                dst.ok(),
                s.ok(),
                t.ok(),
                s.x == self.tile_of(src.x as int),
                s.y == self.tile_of(src.y as int),
                t.x == self.tile_of(dst.x as int),
                t.y == self.tile_of(dst.y as int),
                d.x == dst.x - src.x,
                d.y == dst.y - src.y,
                fx == TileFace::of(Axis2::X, d.x >= 0),
                fy == TileFace::of(Axis2::Y, d.y >= 0),
                on_path(s.x as int, cur.x as int, t.x as int, d.x as int),
                on_path(s.y as int, cur.y as int, t.y as int, d.y as int),
                out.len() == abs(cur.x - s.x) + abs(cur.y - s.y) + 1,
                out[0] == s,
                out[out.len() - 1] == cur,
                forall|i: int| 0 <= i < out.len() - 1 ==> #[trigger] out[i + 1] == walk_step(*self, out[i], t, src, d),
                forall|i: int| 0 <= i < out.len() ==> between(s.x as int, (#[trigger] out[i]).x as int, t.x as int) && between(s.y as int, out[i].y as int, t.y as int),
            decreases abs(t.x - cur.x) + abs(t.y - cur.y),
        {
            let go_x = cur.x != t.x && (cur.y == t.y || !self.y_first_from(cur, src, d, Ghost(src), Ghost(dst)));
            let next = if go_x { step(cur, fx) } else { step(cur, fy) };
            assert(next == walk_step(*self, cur, t, src, d));
            let ghost prev = out@;
            out.push(next);
            assert forall|i: int| 0 <= i < out.len() - 1 implies #[trigger] out[i + 1] == walk_step(*self, out[i], t, src, d) by {
                if i < out.len() - 2 {
                    assert(out[i + 1] == prev[i + 1]);
                    assert(out[i] == prev[i]);
                }
            }
            assert forall|i: int| 0 <= i < out.len() implies between(s.x as int, (#[trigger] out[i]).x as int, t.x as int) && between(s.y as int, out[i].y as int, t.y as int) by {
                if i < out.len() - 1 {
                    assert(out[i] == prev[i]);
                }
            }
            cur = next;
        }
        let ghost before = out@;
        out.push(t);
        assert forall|i: int| 0 <= i < out.len() implies between(s.x as int, (#[trigger] out[i]).x as int, t.x as int) && between(s.y as int, out[i].y as int, t.y as int) by {
            if i < out.len() - 1 {
                assert(out[i] == before[i]);
            }
        }
        out
    }

    /// Boundary position and distance numerator for leaving `tile` from
    /// `start` with motion `d`, for a tile between two in-range tiles.
    fn boundary_gap(&self, tile: i64, start: i64, d: i64, lo: Ghost<int>, hi: Ghost<int>) -> (r: (
        i64,
        i64,
    ))
        requires
            self.ok(),
            coord_ok(start as int),
            coord_ok(lo@) && coord_ok(hi@),
            self.tile_of(lo@) <= tile <= self.tile_of(hi@) || self.tile_of(hi@) <= tile
                <= self.tile_of(lo@),
        ensures
            r.0 == next_boundary(*self, tile as int, d as int),
            r.1 == gap_to_boundary(*self, tile as int, start as int, d as int),
            0 <= r.1 <= 5 * MAX_COORD,
    {
        proof {
            if self.tile_of(lo@) <= tile <= self.tile_of(hi@) {
                lemma_boundary_bounds(*self, lo@, tile as int, hi@, d as int);
            } else {
                lemma_boundary_bounds(*self, hi@, tile as int, lo@, d as int);
            }
        }
        let t1 = tile + 1;
        assert(-4 * MAX_COORD <= t1 * self.size <= 4 * MAX_COORD);
        let b = if d > 0 { t1 * self.size } else { tile * self.size };
        let g = if b >= start { b - start } else { start - b };
        (b, g)
    }

    fn y_before_x(&self, t: IVec2, origin: Vec2, delta: Vec2) -> (r: bool)
        requires
            self.ok(),
            origin.ok(),
            delta.ok(),
            coord_ok(origin.x + delta.x),
            coord_ok(origin.y + delta.y),
            t.x == self.tile_of(origin.x as int),
            t.y == self.tile_of(origin.y as int),
        ensures
            r == y_first(*self, t, origin, delta),
    {
        let dest = Vec2 { x: origin.x + delta.x, y: origin.y + delta.y };
        self.y_first_from(t, origin, delta, Ghost(origin), Ghost(dest))
    }

    /// Whether, leaving `cur`, the ray from `start` along `d` reaches the
    /// next y boundary strictly before the next x boundary.
    fn y_first_from(&self, cur: IVec2, start: Vec2, d: Vec2, a: Ghost<Vec2>, b: Ghost<Vec2>) -> (r: bool)
        requires
            self.ok(),
            start.ok(),
            -2 * MAX_COORD <= d.x <= 2 * MAX_COORD,
            -2 * MAX_COORD <= d.y <= 2 * MAX_COORD,
            a@.ok(),
            b@.ok(),
            self.tile_of(a@.x as int) <= cur.x <= self.tile_of(b@.x as int)
                || self.tile_of(b@.x as int) <= cur.x <= self.tile_of(a@.x as int),
            self.tile_of(a@.y as int) <= cur.y <= self.tile_of(b@.y as int)
                || self.tile_of(b@.y as int) <= cur.y <= self.tile_of(a@.y as int),
        ensures
            r == y_first(*self, cur, start, d),
    {
        let (_, gx) = self.boundary_gap(cur.x, start.x, d.x, Ghost(a@.x as int), Ghost(b@.x as int));
        let (_, gy) = self.boundary_gap(cur.y, start.y, d.y, Ghost(a@.y as int), Ghost(b@.y as int));
        let ax: i128 = if d.x < 0 { -(d.x as i128) } else { d.x as i128 };
        let ay: i128 = if d.y < 0 { -(d.y as i128) } else { d.y as i128 };
        assert(0 <= gy * ax <= 10 * MAX_COORD * MAX_COORD) by (nonlinear_arith)
            requires 0 <= gy <= 5 * MAX_COORD, 0 <= ax <= 2 * MAX_COORD;
        assert(0 <= gx * ay <= 10 * MAX_COORD * MAX_COORD) by (nonlinear_arith)
            requires 0 <= gx <= 5 * MAX_COORD, 0 <= ay <= 2 * MAX_COORD;
        (gy as i128) * ax < (gx as i128) * ay
    }

    fn crossing(&self, axis: Axis2, t: IVec2, o: Vec2, d: Vec2, entered: IVec2) -> (r: RayIntersection)
        requires
            self.ok(),
            o.ok(),
            d.ok(),
            coord_ok(o.x + d.x),
            coord_ok(o.y + d.y),
            t.x == self.tile_of(o.x as int),
            t.y == self.tile_of(o.y as int),
        ensures
            r == crossing_on(*self, axis, t, o, d, entered),
    {
        let tile = match axis {
            Axis2::X => t.x,
            Axis2::Y => t.y,
        };
        let start = o.get_axis(axis);
        let da = d.get_axis(axis);
        let (b, g) = self.boundary_gap(tile, start, da, Ghost(start as int), Ghost(start as int));
        let den = if da < 0 { -da } else { da };
        RayIntersection {
            face: TileFace::compose(axis, da >= 0),
            entered_tile: entered,
            boundary: b,
            dist_num: g,
            dist_den: den,
        }
    }
}

fn step(t: IVec2, f: TileFace) -> (r: IVec2)
    requires
        -2 * MAX_COORD <= t.x <= 2 * MAX_COORD,
        -2 * MAX_COORD <= t.y <= 2 * MAX_COORD,
    ensures
        r == step_tile(t, f),
{
    let v = f.as_ivec();
    IVec2 { x: t.x + v.x, y: t.y + v.y }
}

} // verus!
