//! The dynamic collider index: per-chunk lists of the boxes of moving and
//! static actors, kept in the chunk that holds each box's center.
use vstd::prelude::*;
use crate::config::{chunk_of, lemma_floor_div_monotone, TileLayerConfig, CHUNK_EDGE};
use crate::geometry::{coord_ok, Aabb, IVec2, Vec2};
use crate::world::{
    cell, chunk_or_create_post, grows_from, lemma_chunk_or_create_grows, lemma_lookup_injective,
    lemma_lookup_live, ChunkId, TileWorld,
};

verus! {

/// Handle of a registered collider. Handles are never reused.
pub type ColliderId = usize;

/// How far past a query box the chunks to visit reach, in actor units.
pub const QUERY_MARGIN: i64 = 1000;

/// The chunk coordinate that holds the center of box `b`.
pub open spec fn center_chunk(c: TileLayerConfig, b: Aabb) -> (int, int) {
    (
        chunk_of(c.tile_of((b.min.x + b.max.x) / 2)),
        chunk_of(c.tile_of((b.min.y + b.max.y) / 2)),
    )
}

/// The query box grown by the margin stays in range.
pub open spec fn query_ok(q: Aabb) -> bool {
    &&& q.ok()
    &&& coord_ok(q.min.x - QUERY_MARGIN)
    &&& coord_ok(q.min.y - QUERY_MARGIN)
    &&& coord_ok(q.max.x + QUERY_MARGIN)
    &&& coord_ok(q.max.y + QUERY_MARGIN)
}

/// The chunk coordinate `p` lies among those a query for `q` visits: the
/// chunks of the tiles under `q` grown by `QUERY_MARGIN` on every side.
pub open spec fn covers(c: TileLayerConfig, q: Aabb, p: (int, int)) -> bool {
    &&& chunk_of(c.tile_of(q.min.x - QUERY_MARGIN)) <= p.0 <= chunk_of(c.tile_of(q.max.x + QUERY_MARGIN))
    &&& chunk_of(c.tile_of(q.min.y - QUERY_MARGIN)) <= p.1 <= chunk_of(c.tile_of(q.max.y + QUERY_MARGIN))
}

/// No side of the box is longer than twice the query margin.
pub open spec fn within_margin(b: Aabb) -> bool {
    b.max.x - b.min.x <= 2 * QUERY_MARGIN && b.max.y - b.min.y <= 2 * QUERY_MARGIN
}

/// Chunk coordinates already visited by a row-by-row walk that is at
/// column `cx`, row `cy`, of the rectangle from `x0` and rows `y0..=y1`.
pub open spec fn visited(x0: int, y0: int, y1: int, cx: int, cy: int, p: (int, int)) -> bool {
    (x0 <= p.0 < cx && y0 <= p.1 <= y1) || (p.0 == cx && y0 <= p.1 < cy)
}

/// Chunk coordinate `p` comes before `q` in row-major order: by x, then by y.
pub open spec fn chunk_before(p: (int, int), q: (int, int)) -> bool {
    p.0 < q.0 || (p.0 == q.0 && p.1 < q.1)
}

/// A box within the margin that overlaps the query has its center in a
/// chunk that the query visits.
pub proof fn lemma_margin_covers(c: TileLayerConfig, q: Aabb, b: Aabb)
    requires
        c.ok(),
        query_ok(q),
        b.ok(),
        within_margin(b),
        b.overlaps(q),
    ensures
        covers(c, q, center_chunk(c, b)),
{
    let mx = (b.min.x + b.max.x) / 2;
    let my = (b.min.y + b.max.y) / 2;
    assert(q.min.x - QUERY_MARGIN <= mx <= q.max.x + QUERY_MARGIN);
    assert(q.min.y - QUERY_MARGIN <= my <= q.max.y + QUERY_MARGIN);
    let s = c.size as int;
    lemma_floor_div_monotone(q.min.x - QUERY_MARGIN, mx, s);
    lemma_floor_div_monotone(mx, q.max.x + QUERY_MARGIN, s);
    lemma_floor_div_monotone(q.min.y - QUERY_MARGIN, my, s);
    lemma_floor_div_monotone(my, q.max.y + QUERY_MARGIN, s);
    lemma_floor_div_monotone(c.tile_of(q.min.x - QUERY_MARGIN), c.tile_of(mx), CHUNK_EDGE as int);
    lemma_floor_div_monotone(c.tile_of(mx), c.tile_of(q.max.x + QUERY_MARGIN), CHUNK_EDGE as int);
    lemma_floor_div_monotone(c.tile_of(q.min.y - QUERY_MARGIN), c.tile_of(my), CHUNK_EDGE as int);
    lemma_floor_div_monotone(c.tile_of(my), c.tile_of(q.max.y + QUERY_MARGIN), CHUNK_EDGE as int);
}

/// The colliders registered in one chunk: boxes and their owners, index-aligned.
#[derive(Debug)]
pub struct TrackedColliderChunk {
    aabbs: Vec<Aabb>,
    handles: Vec<ColliderId>,
}

/// Where a collider is stored: its chunk and its position in that chunk's lists.
#[derive(Clone, Copy, Debug, PartialEq, Eq, Structural)]
pub struct TrackedCollider {
    pub chunk: ChunkId,
    pub index: usize,
}

/// The collider index of one tile world.
#[derive(Debug)]
pub struct WorldColliders {
    chunks: Vec<TrackedColliderChunk>,
    records: Vec<Option<TrackedCollider>>,
}

impl TrackedColliderChunk {
    fn empty() -> (r: TrackedColliderChunk)
        ensures
            r.aabbs@.len() == 0,
            r.handles@.len() == 0,
    {
        TrackedColliderChunk { aabbs: Vec::new(), handles: Vec::new() }
    }
}

impl WorldColliders {
    /// Handle `h` names a registered collider.
    pub closed spec fn live(&self, h: int) -> bool {
        0 <= h < self.records.len() && self.records@[h] is Some
    }

    /// Where live collider `h` is stored.
    pub closed spec fn place(&self, h: int) -> TrackedCollider {
        self.records@[h]->Some_0
    }

    /// The owner stored at position `i` of the lists of chunk `c`.
    pub closed spec fn handle_at(&self, c: int, i: int) -> ColliderId {
        self.chunks@[c].handles@[i]
    }

    /// The number of colliders stored in chunk `c`.
    pub closed spec fn chunk_len(&self, c: int) -> int {
        if 0 <= c < self.chunks.len() { self.chunks@[c].handles.len() as int } else { 0 }
    }

    /// The box of live collider `h`.
    pub closed spec fn box_of(&self, h: int) -> Aabb {
        self.chunks@[self.place(h).chunk as int].aabbs@[self.place(h).index as int]
    }

    /// Number of handles ever handed out.
    pub closed spec fn handle_count(&self) -> nat {
        self.records.len() as nat
    }

    /// The index's invariant, against world `w`: each live collider's
    /// recorded place holds it, each stored entry is a live collider whose
    /// recorded place is that entry, the two lists of a chunk have one
    /// length, and each collider sits in the chunk of `w` that holds its
    /// box's center.
    pub closed spec fn wf(&self, w: TileWorld) -> bool {
        &&& w.wf()
        &&& self.consistent()
        &&& forall|h: int| #[trigger]
            self.live(h) ==> {
                &&& self.box_of(h).ok()
                &&& w.lookup(center_chunk(w.layer(), self.box_of(h))) == Some(self.place(h).chunk)
            }
    }

    /// The lists and the records agree: each live collider's recorded
    /// place holds it, each stored entry is a live collider whose recorded
    /// place is that entry, and the two lists of a chunk have one length.
    pub closed spec fn consistent(&self) -> bool {
        &&& forall|h: int| #[trigger]
            self.live(h) ==> {
                let p = self.place(h);
                &&& p.chunk < self.chunks.len()
                &&& p.index < self.chunks@[p.chunk as int].handles.len()
                &&& self.chunks@[p.chunk as int].handles@[p.index as int] == h
            }
        &&& forall|c: int| 0 <= c < self.chunks.len() ==> #[trigger] self.chunks@[c].aabbs.len() == self.chunks@[c].handles.len()
        &&& forall|c: int, i: int|
            0 <= c < self.chunks.len() && 0 <= i < self.chunks@[c].handles.len() ==> {
                let h = #[trigger] self.chunks@[c].handles@[i];
                &&& self.live(h as int)
                &&& self.place(h as int) == (TrackedCollider { chunk: c as ChunkId, index: i as usize })
            }
    }

    /// An empty index.
    pub fn new() -> (r: WorldColliders)
        ensures
            forall|w: TileWorld| w.wf() ==> r.wf(w),
            forall|h: int| !r.live(h),
            r.boxes() == Map::<int, Aabb>::empty(),
            r.handle_count() == 0,
    {
        let r = WorldColliders { chunks: Vec::new(), records: Vec::new() };
        assert(r.boxes() =~= Map::<int, Aabb>::empty());
        r
    }

    /// Entry `e1` is listed before entry `e2` by a query: its center chunk
    /// comes first, or both share a chunk and `e1` sits earlier in its lists.
    pub open spec fn listed_before(&self, c: TileLayerConfig, e1: (ColliderId, Aabb), e2: (ColliderId, Aabb)) -> bool {
        chunk_before(center_chunk(c, e1.1), center_chunk(c, e2.1)) || (center_chunk(c, e1.1) == center_chunk(c, e2.1)
            && self.place(e1.0 as int).index < self.place(e2.0 as int).index)
    }

    /// `r` is what a query of `q` in world `w` reports: live colliders with
    /// their boxes, each overlapping `q`, each once, in listing order, and
    /// among them every overlapping collider whose center chunk the query
    /// visits (so every one no larger than twice the margin).
    pub open spec fn reports(&self, w: TileWorld, q: Aabb, r: Seq<(ColliderId, Aabb)>) -> bool {
        &&& forall|k: int|
            0 <= k < r.len() ==> {
                let e = #[trigger] r[k];
                &&& self.boxes().contains_key(e.0 as int)
                &&& e.1 == self.boxes()[e.0 as int]
                &&& e.1.overlaps(q)
            }
        &&& forall|k1: int, k2: int| 0 <= k1 < k2 < r.len() ==> #[trigger] r[k1].0 != #[trigger] r[k2].0
        &&& forall|k1: int, k2: int| 0 <= k1 < k2 < r.len() ==> self.listed_before(w.layer(), #[trigger] r[k1], #[trigger] r[k2])
        &&& forall|h: int|
            #[trigger] self.boxes().contains_key(h) && self.boxes()[h].overlaps(q) && covers(w.layer(), q, center_chunk(w.layer(), self.boxes()[h]))
                ==> exists|k: int| 0 <= k < r.len() && #[trigger] r[k].0 == h
        &&& forall|h: int|
            #[trigger] self.boxes().contains_key(h) && self.boxes()[h].overlaps(q) && within_margin(self.boxes()[h])
                ==> exists|k: int| 0 <= k < r.len() && #[trigger] r[k].0 == h
    }

    /// The boxes of the live colliders, by handle.
    pub closed spec fn boxes(&self) -> Map<int, Aabb> {
        Map::new(|h: int| self.live(h), |h: int| self.box_of(h))
    }

    /// Removes live collider `h` from its chunk's lists by swapping the
    /// last entry into its place, and patches the moved entry's record.
    fn unregister(&mut self, w: Ghost<TileWorld>, h: ColliderId)
        requires
            old(self).wf(w@),
            old(self).live(h as int),
        ensures
            final(self).wf(w@),
            final(self).boxes() == old(self).boxes().remove(h as int),
            final(self).handle_count() == old(self).handle_count(),
            final(self).chunks.len() == old(self).chunks.len(),
            ({
                let p = old(self).place(h as int);
                let c = p.chunk as int;
                let l = old(self).chunks@[c].handles@;
                let a = old(self).chunks@[c].aabbs@;
                &&& final(self).chunks@[c].handles@ == l.update(p.index as int, l.last()).drop_last()
                &&& final(self).chunks@[c].aabbs@ == a.update(p.index as int, a.last()).drop_last()
                &&& p.index < l.len() - 1 ==> final(self).place(l.last() as int) == p
                &&& forall|g: int|
                    #[trigger] old(self).live(g) && g != h && (p.index == l.len() - 1 || g != l.last()) ==> final(self).place(g)
                        == old(self).place(g)
                &&& forall|k: int| 0 <= k < old(self).chunks.len() && k != c ==> #[trigger] final(self).chunks@[k] == old(self).chunks@[k]
            }),
    {
        let p = self.records[h].unwrap();
        let c = p.chunk;
        let i = p.index;
        let ghost s0 = *self;
        let ghost last = (self.chunks@[c as int].handles.len() - 1) as int;
        let ghost moved = self.chunks@[c as int].handles@[last];
        assert(s0.live(moved as int));
        self.chunks[c].aabbs.swap_remove(i);
        self.chunks[c].handles.swap_remove(i);
        if i < self.chunks[c].handles.len() {
            let m = self.chunks[c].handles[i];
            assert(m == moved);
            self.records[m] = Some(TrackedCollider { chunk: c, index: i });
        }
        self.records[h] = None;
        proof {
            let s1 = *self;
            assert(s0.chunks@[c as int].aabbs.len() == s0.chunks@[c as int].handles.len());
            assert(s1.chunks@[c as int].handles@ == s0.chunks@[c as int].handles@.update(i as int, moved).drop_last());
            assert(s1.chunks@[c as int].aabbs@ == s0.chunks@[c as int].aabbs@.update(i as int, s0.chunks@[c as int].aabbs@.last()).drop_last());
            assert(s1.records@ == if i as int != last {
                s0.records@.update(moved as int, Some(TrackedCollider { chunk: c, index: i })).update(h as int, None)
            } else {
                s0.records@.update(h as int, None)
            });
            assert(i as int != last ==> moved != h) by {
                if i as int != last && moved == h {
                    assert(s0.place(h as int).index == last);
                }
            }
            assert forall|c2: int| 0 <= c2 < s1.chunks.len() && c2 != c implies #[trigger] s1.chunks@[c2] == s0.chunks@[c2] by {}
            assert forall|g: int| #[trigger] s1.live(g) implies s0.live(g) && g != h && s1.box_of(g) == s0.box_of(g)
                && {
                let q = s1.place(g);
                &&& q.chunk < s1.chunks.len()
                &&& q.index < s1.chunks@[q.chunk as int].handles.len()
                &&& s1.chunks@[q.chunk as int].handles@[q.index as int] == g
            } by {
                assert(s0.live(g));
                if g == moved && i as int != last {
                    assert(s1.place(g) == TrackedCollider { chunk: c, index: i });
                    assert(s0.place(g) == TrackedCollider { chunk: c, index: last as usize });
                } else {
                    assert(s1.records@[g] == s0.records@[g]);
                    let q = s0.place(g);
                    if q.chunk == c {
                        assert(q.index != i) by {
                            if q.index == i {
                                assert(s0.chunks@[c as int].handles@[i as int] == h);
                            }
                        }
                        assert(q.index != last) by {
                            if q.index as int == last {
                                assert(g == moved);
                            }
                        }
                    }
                }
            }
            assert forall|g: int| #[trigger] s0.live(g) && g != h implies s1.live(g) by {
                let q = s0.place(g);
                if g != moved {
                    assert(s1.records@[g] == s0.records@[g]);
                }
            }
            assert forall|c2: int, k: int|
                0 <= c2 < s1.chunks.len() && 0 <= k < s1.chunks@[c2].handles.len() implies {
                    let g = #[trigger] s1.chunks@[c2].handles@[k];
                    &&& s1.live(g as int)
                    &&& s1.place(g as int) == (TrackedCollider { chunk: c2 as ChunkId, index: k as usize })
                } by {
                if c2 == c as int {
                    if k == i as int {
                        assert(s1.chunks@[c2].handles@[k] == moved);
                    } else {
                        let g = s0.chunks@[c2].handles@[k];
                        assert(s1.chunks@[c2].handles@[k] == g);
                        assert(g != h);
                        assert(g != moved);
                    }
                } else {
                    let g = s0.chunks@[c2].handles@[k];
                    assert(s0.place(g as int).chunk == c2);
                    assert(g != h);
                    assert(g != moved || i as int == last);
                }
            }
            assert(s1.boxes() =~= s0.boxes().remove(h as int));
        }
    }

    /// Appends collider `h` with box `b` to the lists of chunk `c`.
    fn register(&mut self, w: Ghost<TileWorld>, c: ChunkId, h: ColliderId, b: Aabb)
        requires
            old(self).wf(w@),
            h < old(self).records.len(),
            !old(self).live(h as int),
            c < old(self).chunks.len(),
            b.ok(),
            w@.lookup(center_chunk(w@.layer(), b)) == Some(c),
        ensures
            final(self).wf(w@),
            final(self).boxes() == old(self).boxes().insert(h as int, b),
            final(self).handle_count() == old(self).handle_count(),
            final(self).chunks.len() == old(self).chunks.len(),
            final(self).place(h as int) == (TrackedCollider { chunk: c, index: old(self).chunks@[c as int].handles.len() }),
            final(self).chunks@[c as int].handles@ == old(self).chunks@[c as int].handles@.push(h),
            final(self).chunks@[c as int].aabbs@ == old(self).chunks@[c as int].aabbs@.push(b),
            forall|g: int| #[trigger] old(self).live(g) ==> final(self).place(g) == old(self).place(g),
            forall|k: int| 0 <= k < old(self).chunks.len() && k != c ==> #[trigger] final(self).chunks@[k] == old(self).chunks@[k],
    {
        let i = self.chunks[c].handles.len();
        let ghost s0 = *self;
        assert(s0.chunks@[c as int].aabbs.len() == s0.chunks@[c as int].handles.len());
        self.chunks[c].aabbs.push(b);
        self.chunks[c].handles.push(h);
        self.records[h] = Some(TrackedCollider { chunk: c, index: i });
        proof {
            let s1 = *self;
            assert forall|c2: int| 0 <= c2 < s1.chunks.len() && c2 != c implies #[trigger] s1.chunks@[c2] == s0.chunks@[c2] by {}
            assert forall|g: int| #[trigger] s1.live(g) && g != h implies s0.live(g) && s1.place(g) == s0.place(g) && s1.box_of(g) == s0.box_of(g) by {
                assert(s1.records@[g] == s0.records@[g]);
                assert(s0.live(g));
                let q = s0.place(g);
                if q.chunk == c {
                    assert(q.index < i);
                }
            }
            assert forall|g: int| #[trigger] s0.live(g) implies s1.live(g) by {
                assert(g != h);
                assert(s1.records@[g] == s0.records@[g]);
            }
            assert forall|c2: int, k: int|
                0 <= c2 < s1.chunks.len() && 0 <= k < s1.chunks@[c2].handles.len() implies {
                    let g = #[trigger] s1.chunks@[c2].handles@[k];
                    &&& s1.live(g as int)
                    &&& s1.place(g as int) == (TrackedCollider { chunk: c2 as ChunkId, index: k as usize })
                } by {
                if c2 == c as int && k == i as int {
                } else {
                    let g = s0.chunks@[c2].handles@[k];
                    assert(s1.chunks@[c2].handles@[k] == g);
                    assert(s0.live(g as int));
                    assert(g != h);
                }
            }
            assert(s1.box_of(h as int) == b);
            assert(s1.boxes() =~= s0.boxes().insert(h as int, b));
        }
    }

    /// The chunk coordinate holding the center of an in-range box.
    fn home_of(config: TileLayerConfig, b: Aabb) -> (r: IVec2)
        requires
            config.ok(),
            b.ok(),
        ensures
            cell(r) == center_chunk(config, b),
            crate::world::chunk_pos_ok(cell(r)),
    {
        let t = config.actor_to_tile(b.center());
        let (c, _) = TileLayerConfig::decompose_world_pos(t);
        proof {
            crate::world::lemma_chunk_reach(t);
        }
        c
    }

    /// Starts tracking a collider with box `b`, in the chunk (created if
    /// absent) that holds the box's center, and returns its new handle.
    pub fn attach(&mut self, world: &mut TileWorld, b: Aabb) -> (r: ColliderId)
        requires
            old(self).wf(*old(world)),
            b.ok(),
            old(world).slot_count() < usize::MAX,
            old(self).handle_count() < usize::MAX,
        ensures
            final(self).wf(*final(world)),
            final(world).wf(),
            r == old(self).handle_count(),
            final(self).handle_count() == old(self).handle_count() + 1,
            final(self).boxes() == old(self).boxes().insert(r as int, b),
            grows_from(*final(world), *old(world)),
            forall|t: (int, int)| #[trigger] final(world).tile_at(t) == old(world).tile_at(t),
    {
        let config = world.config();
        let pos = Self::home_of(config, b);
        let ghost w0 = *world;
        let cid = world.chunk_or_create(pos);
        proof {
            lemma_chunk_or_create_grows(w0, *world, pos, cid);
            self.lemma_wf_grow(w0, *world);
        }
        self.reserve_chunk(Ghost(*world), cid);
        let h = self.records.len();
        let ghost s0 = *self;
        self.records.push(None);
        proof {
            let s1 = *self;
            assert forall|g: int| #[trigger] s1.live(g) implies s0.live(g) && s1.records@[g] == s0.records@[g] by {}
            assert forall|g: int| #[trigger] s0.live(g) implies s1.live(g) && s1.records@[g] == s0.records@[g] by {}
            assert forall|c2: int, k: int|
                0 <= c2 < s1.chunks.len() && 0 <= k < s1.chunks@[c2].handles.len() implies {
                    let g = #[trigger] s1.chunks@[c2].handles@[k];
                    &&& s1.live(g as int)
                    &&& s1.place(g as int) == (TrackedCollider { chunk: c2 as ChunkId, index: k as usize })
                } by {
                let g = s0.chunks@[c2].handles@[k];
                assert(s0.live(g as int));
            }
            assert(s1.boxes() =~= s0.boxes());
        }
        self.register(Ghost(*world), cid, h, b);
        h
    }

    /// Gives live collider `h` the box `b`. While the box's center stays in
    /// the same chunk the entry is overwritten in place and the world is
    /// untouched; otherwise the collider moves to the chunk (created if
    /// absent) that holds the new center.
    pub fn update_box(&mut self, world: &mut TileWorld, h: ColliderId, b: Aabb)
        requires
            old(self).wf(*old(world)),
            old(self).boxes().contains_key(h as int),
            b.ok(),
            old(world).slot_count() < usize::MAX,
        ensures
            final(self).wf(*final(world)),
            final(world).wf(),
            final(self).boxes() == old(self).boxes().insert(h as int, b),
            final(self).handle_count() == old(self).handle_count(),
            grows_from(*final(world), *old(world)),
            forall|t: (int, int)| #[trigger] final(world).tile_at(t) == old(world).tile_at(t),
            center_chunk(old(world).layer(), b) == center_chunk(old(world).layer(), old(self).boxes()[h as int])
                ==> *final(world) == *old(world) && (forall|g: int| #[trigger] old(self).live(g) ==> final(self).place(g) == old(self).place(g))
                && (forall|c: int, i: int| 0 <= i < old(self).chunk_len(c) ==> #[trigger] final(self).handle_at(c, i) == old(self).handle_at(c, i))
                && (forall|c: int| #[trigger] final(self).chunk_len(c) == old(self).chunk_len(c)),
    {
        let config = world.config();
        let p = self.records[h].unwrap();
        assert(p == self.place(h as int));
        assert(self.chunks@[p.chunk as int].aabbs.len() == self.chunks@[p.chunk as int].handles.len());
        let old_b = self.chunks[p.chunk].aabbs[p.index];
        assert(old_b == self.box_of(h as int));
        let old_pos = Self::home_of(config, old_b);
        let new_pos = Self::home_of(config, b);
        if old_pos == new_pos {
            let ghost s0 = *self;
            self.chunks[p.chunk].aabbs[p.index] = b;
            proof {
                let s1 = *self;
                assert(s0.chunks@[p.chunk as int].aabbs.len() == s0.chunks@[p.chunk as int].handles.len());
                assert(s1.chunks@[p.chunk as int].handles == s0.chunks@[p.chunk as int].handles);
                assert forall|c2: int| 0 <= c2 < s1.chunks.len() && c2 != p.chunk implies #[trigger] s1.chunks@[c2] == s0.chunks@[c2] by {}
                assert forall|c2: int| 0 <= c2 < s1.chunks.len() implies #[trigger] s1.chunks@[c2].handles == s0.chunks@[c2].handles
                    && s1.chunks@[c2].aabbs.len() == s1.chunks@[c2].handles.len() by {}
                assert forall|g: int| #[trigger] s1.live(g) implies {
                    let q = s1.place(g);
                    &&& q.chunk < s1.chunks.len()
                    &&& q.index < s1.chunks@[q.chunk as int].handles.len()
                    &&& s1.chunks@[q.chunk as int].handles@[q.index as int] == g
                } by {
                    assert(s0.live(g));
                    assert(s1.records@[g] == s0.records@[g]);
                }
                assert forall|g: int| #[trigger] s1.live(g) && g != h implies s1.box_of(g) == s0.box_of(g) by {
                    assert(s1.records@[g] == s0.records@[g]);
                    assert(s0.live(g));
                    let q = s0.place(g);
                    assert(s0.chunks@[q.chunk as int].handles@[q.index as int] == g);
                    if q.chunk == p.chunk {
                        assert(q.index != p.index) by {
                            if q.index == p.index {
                                assert(s0.chunks@[p.chunk as int].handles@[p.index as int] == h);
                            }
                        }
                        assert(s1.chunks@[p.chunk as int].aabbs@[q.index as int] == s0.chunks@[p.chunk as int].aabbs@[q.index as int]);
                    }
                }
                assert forall|c2: int, k: int|
                    0 <= c2 < s1.chunks.len() && 0 <= k < s1.chunks@[c2].handles.len() implies {
                        let g = #[trigger] s1.chunks@[c2].handles@[k];
                        &&& s1.live(g as int)
                        &&& s1.place(g as int) == (TrackedCollider { chunk: c2 as ChunkId, index: k as usize })
                    } by {
                    assert(s1.chunks@[c2].handles@[k] == s0.chunks@[c2].handles@[k]);
                }
                assert(s1.box_of(h as int) == b);
                assert(s1.boxes() =~= s0.boxes().insert(h as int, b));
                assert(center_chunk(world.layer(), b) == center_chunk(world.layer(), old_b));
                assert(s1.records@ == s0.records@);
                assert forall|c: int, k: int| 0 <= k < s0.chunk_len(c) implies #[trigger] s1.handle_at(c, k) == s0.handle_at(c, k) by {
                    if 0 <= c < s1.chunks.len() {
                        assert(s1.chunks@[c].handles == s0.chunks@[c].handles);
                    }
                }
                assert forall|c: int| #[trigger] s1.chunk_len(c) == s0.chunk_len(c) by {
                    if 0 <= c < s1.chunks.len() {
                        assert(s1.chunks@[c].handles == s0.chunks@[c].handles);
                    }
                }
                assert forall|g: int| #[trigger] s1.live(g) implies {
                    &&& s1.box_of(g).ok()
                    &&& world.lookup(center_chunk(world.layer(), s1.box_of(g))) == Some(s1.place(g).chunk)
                } by {
                    assert(s0.live(g));
                }
            }
        } else {
            assert(cell(old_pos) != cell(new_pos));
            self.unregister(Ghost(*world), h);
            assert(!self.boxes().contains_key(h as int));
            let ghost w0 = *world;
            let cid = world.chunk_or_create(new_pos);
            proof {
                lemma_chunk_or_create_grows(w0, *world, new_pos, cid);
                self.lemma_wf_grow(w0, *world);
            }
            let ghost s2 = *self;
            self.reserve_chunk(Ghost(*world), cid);
            proof {
                assert(!s2.live(h as int));
                assert(self.records@ == s2.records@);
                assert forall|g: int| #[trigger] self.live(g) implies self.box_of(g) == s2.box_of(g) by {
                    assert(s2.live(g));
                    assert(s2.place(g).chunk < s2.chunks.len());
                }
                assert(self.boxes() =~= s2.boxes());
            }
            self.register(Ghost(*world), cid, h, b);
            proof {
                assert(self.boxes() =~= old(self).boxes().insert(h as int, b));
            }
        }
    }

    /// Stops tracking live collider `h`.
    pub fn detach(&mut self, world: &TileWorld, h: ColliderId)
        requires
            old(self).wf(*world),
            old(self).boxes().contains_key(h as int),
        ensures
            final(self).wf(*world),
            final(self).boxes() == old(self).boxes().remove(h as int),
            final(self).handle_count() == old(self).handle_count(),
    {
        self.unregister(Ghost(*world), h);
    }

    /// The box of collider `h`, if it is tracked.
    pub fn collider_box(&self, h: ColliderId) -> (r: Option<Aabb>)
        requires
            self.consistent(),
        ensures
            r == if self.boxes().contains_key(h as int) {
                Some(self.boxes()[h as int])
            } else {
                None
            },
    {
        if h < self.records.len() {
            match self.records[h] {
                Some(p) => {
                    if p.chunk < self.chunks.len() && p.index < self.chunks[p.chunk].aabbs.len() {
                        Some(self.chunks[p.chunk].aabbs[p.index])
                    } else {
                        None
                    }
                },
                None => None,
            }
        } else {
            None
        }
    }

    /// Appends to `out` every entry of chunk `id` whose box overlaps `q`.
    fn scan_chunk(&self, w: Ghost<TileWorld>, p: Ghost<(int, int)>, id: ChunkId, q: Aabb, out: &mut Vec<(ColliderId, Aabb)>)
        requires
            self.wf(w@),
            w@.lookup(p@) == Some(id),
            id < self.chunks.len(),
        ensures
            final(out).len() >= old(out).len(),
            forall|k: int| 0 <= k < old(out).len() ==> #[trigger] final(out)@[k] == old(out)@[k],
            forall|k: int|
                old(out).len() <= k < final(out).len() ==> {
                    let e = #[trigger] final(out)@[k];
                    &&& self.live(e.0 as int)
                    &&& e.1 == self.box_of(e.0 as int)
                    &&& e.1.overlaps(q)
                    &&& center_chunk(w@.layer(), e.1) == p@
                },
            forall|k1: int, k2: int|
                old(out).len() <= k1 < k2 < final(out).len() ==> #[trigger] final(out)@[k1].0 != #[trigger] final(out)@[k2].0,
            forall|k1: int, k2: int|
                old(out).len() <= k1 < k2 < final(out).len() ==> self.place(#[trigger] final(out)@[k1].0 as int).index
                    < self.place(#[trigger] final(out)@[k2].0 as int).index,
            forall|h: int|
                #[trigger] self.live(h) && self.place(h).chunk == id && self.box_of(h).overlaps(q) ==> exists|k: int|
                    old(out).len() <= k < final(out).len() && #[trigger] final(out)@[k].0 == h,
    {
        let ghost start = out.len();
        let ch = &self.chunks[id];
        assert(ch.aabbs.len() == ch.handles.len());
        let mut i: usize = 0;
        while i < ch.handles.len()
            invariant
                self.wf(w@),
                w@.lookup(p@) == Some(id),
                id < self.chunks.len(),
                ch == self.chunks@[id as int],
                ch.aabbs.len() == ch.handles.len(),
                i <= ch.handles.len(),
                start <= out.len(),
                forall|k: int| 0 <= k < start ==> #[trigger] out@[k] == old(out)@[k],
                start == old(out).len(),
                forall|k: int|
                    start <= k < out.len() ==> {
                        let e = #[trigger] out@[k];
                        &&& self.live(e.0 as int)
                        &&& self.place(e.0 as int).chunk == id
                        &&& self.place(e.0 as int).index < i
                        &&& e.1 == self.box_of(e.0 as int)
                        &&& e.1.overlaps(q)
                        &&& center_chunk(w@.layer(), e.1) == p@
                    },
                forall|k1: int, k2: int|
                    start <= k1 < k2 < out.len() ==> self.place(#[trigger] out@[k1].0 as int).index < self.place(#[trigger] out@[k2].0 as int).index,
                forall|h: int|
                    #[trigger] self.live(h) && self.place(h).chunk == id && self.place(h).index < i && self.box_of(h).overlaps(q)
                        ==> exists|k: int| start <= k < out.len() && #[trigger] out@[k].0 == h,
            decreases ch.handles.len() - i,
        {
            let b = ch.aabbs[i];
            let h = ch.handles[i];
            let ghost before = out@;
            assert(self.live(h as int) && self.place(h as int) == (TrackedCollider { chunk: id, index: i }));
            if b.intersects(&q) {
                proof {
                    lemma_lookup_live(w@, center_chunk(w@.layer(), b));
                    lemma_lookup_injective(w@, center_chunk(w@.layer(), b), p@);
                }
                out.push((h, b));
                proof {
                    assert forall|k: int| 0 <= k < start implies #[trigger] out@[k] == old(out)@[k] by {
                        assert(out@[k] == before[k]);
                    }
                    assert forall|g: int|
                        #[trigger] self.live(g) && self.place(g).chunk == id && self.place(g).index < i + 1 && self.box_of(g).overlaps(q)
                            implies exists|k: int| start <= k < out.len() && #[trigger] out@[k].0 == g by {
                        if self.place(g).index == i {
                            assert(self.chunks@[id as int].handles@[i as int] == g);
                            assert(out@[out.len() - 1].0 == g);
                        } else {
                            let k = choose|k: int| start <= k < before.len() && #[trigger] before[k].0 == g;
                            assert(out@[k] == before[k]);
                        }
                    }
                }
            } else {
                proof {
                    assert forall|g: int|
                        #[trigger] self.live(g) && self.place(g).chunk == id && self.place(g).index < i + 1 && self.box_of(g).overlaps(q)
                            implies exists|k: int| start <= k < out.len() && #[trigger] out@[k].0 == g by {
                        if self.place(g).index == i {
                            assert(self.chunks@[id as int].handles@[i as int] == g);
                        }
                    }
                }
            }
            i += 1;
        }
    }

    /// The tracked colliders whose boxes overlap `q`, each once with its
    /// box, found by scanning the existing chunks within `QUERY_MARGIN` of
    /// `q`, chunk by chunk in row-major order and each chunk's lists in
    /// order. A chunk that does not exist holds no collider, so the query
    /// skips it rather than creating it, and leaves the world unchanged. Every collider that overlaps `q` and is no larger than twice the
    /// margin on each side is found.
    pub fn collisions(&self, world: &TileWorld, q: Aabb) -> (r: Vec<(ColliderId, Aabb)>)
        requires
            self.wf(*world),
            query_ok(q),
        ensures
            forall|k: int|
                0 <= k < r.len() ==> {
                    let e = #[trigger] r@[k];
                    &&& self.boxes().contains_key(e.0 as int)
                    &&& e.1 == self.boxes()[e.0 as int]
                    &&& e.1.overlaps(q)
                },
            forall|k1: int, k2: int| 0 <= k1 < k2 < r.len() ==> #[trigger] r@[k1].0 != #[trigger] r@[k2].0,
            forall|k1: int, k2: int| 0 <= k1 < k2 < r.len() ==> self.listed_before(world.layer(), #[trigger] r@[k1], #[trigger] r@[k2]),
            forall|h: int|
                #[trigger] self.boxes().contains_key(h) && self.boxes()[h].overlaps(q) && covers(
                    world.layer(),
                    q,
                    center_chunk(world.layer(), self.boxes()[h]),
                ) ==> exists|k: int| 0 <= k < r.len() && #[trigger] r@[k].0 == h,
            forall|h: int|
                #[trigger] self.boxes().contains_key(h) && self.boxes()[h].overlaps(q) && within_margin(self.boxes()[h])
                    ==> exists|k: int| 0 <= k < r.len() && #[trigger] r@[k].0 == h,
            self.reports(*world, q, r@),
    {
        let config = world.config();
        let grown = q.grow(Vec2 { x: QUERY_MARGIN, y: QUERY_MARGIN });
        let (t0, t1) = config.actor_aabb_to_tile(grown);
        let (c0, _) = TileLayerConfig::decompose_world_pos(t0);
        let (c1, _) = TileLayerConfig::decompose_world_pos(t1);
        proof {
            crate::world::lemma_chunk_reach(t0);
            crate::world::lemma_chunk_reach(t1);
            lemma_floor_div_monotone(t0.x as int, t1.x as int, CHUNK_EDGE as int);
            lemma_floor_div_monotone(t0.y as int, t1.y as int, CHUNK_EDGE as int);
        }
        let ghost x0 = c0.x as int;
        let ghost y0 = c0.y as int;
        let ghost y1 = c1.y as int;
        let ghost cfg = world.layer();
        let mut out: Vec<(ColliderId, Aabb)> = Vec::new();
        let mut cx = c0.x;
        while cx <= c1.x
            invariant
                self.wf(*world),
                cfg == world.layer(),
                c0.x <= cx <= c1.x + 1,
                x0 == c0.x && y0 == c0.y && y1 == c1.y,
                c0.y <= c1.y,
                crate::world::chunk_pos_ok(cell(c0)),
                crate::world::chunk_pos_ok(cell(c1)),
                forall|k: int|
                    0 <= k < out.len() ==> {
                        let e = #[trigger] out@[k];
                        &&& self.live(e.0 as int)
                        &&& e.1 == self.box_of(e.0 as int)
                        &&& e.1.overlaps(q)
                        &&& visited(x0, y0, y1, cx as int, y0, center_chunk(cfg, e.1))
                    },
                forall|k1: int, k2: int| 0 <= k1 < k2 < out.len() ==> #[trigger] out@[k1].0 != #[trigger] out@[k2].0,
                forall|k1: int, k2: int| 0 <= k1 < k2 < out.len() ==> self.listed_before(cfg, #[trigger] out@[k1], #[trigger] out@[k2]),
                forall|h: int|
                    #[trigger] self.live(h) && self.box_of(h).overlaps(q) && visited(x0, y0, y1, cx as int, y0, center_chunk(cfg, self.box_of(h)))
                        ==> exists|k: int| 0 <= k < out.len() && #[trigger] out@[k].0 == h,
            decreases c1.x + 1 - cx,
        {
            let mut cy = c0.y;
            while cy <= c1.y
                invariant
                    self.wf(*world),
                    cfg == world.layer(),
                    c0.x <= cx <= c1.x,
                    c0.y <= cy <= c1.y + 1,
                    x0 == c0.x && y0 == c0.y && y1 == c1.y,
                    crate::world::chunk_pos_ok(cell(c0)),
                    crate::world::chunk_pos_ok(cell(c1)),
                    forall|k: int|
                        0 <= k < out.len() ==> {
                            let e = #[trigger] out@[k];
                            &&& self.live(e.0 as int)
                            &&& e.1 == self.box_of(e.0 as int)
                            &&& e.1.overlaps(q)
                            &&& visited(x0, y0, y1, cx as int, cy as int, center_chunk(cfg, e.1))
                        },
                    forall|k1: int, k2: int| 0 <= k1 < k2 < out.len() ==> #[trigger] out@[k1].0 != #[trigger] out@[k2].0,
                    forall|k1: int, k2: int| 0 <= k1 < k2 < out.len() ==> self.listed_before(cfg, #[trigger] out@[k1], #[trigger] out@[k2]),
                    forall|h: int|
                        #[trigger] self.live(h) && self.box_of(h).overlaps(q) && visited(x0, y0, y1, cx as int, cy as int, center_chunk(cfg, self.box_of(h)))
                            ==> exists|k: int| 0 <= k < out.len() && #[trigger] out@[k].0 == h,
                decreases c1.y + 1 - cy,
            {
                let pos = IVec2 { x: cx, y: cy };
                let ghost p = cell(pos);
                let ghost before = out@;
                let found = world.chunk(pos);
                match found {
                    Some(id) => {
                        if id < self.chunks.len() {
                            self.scan_chunk(Ghost(*world), Ghost(p), id, q, &mut out);
                        }
                        proof {
                            lemma_lookup_live(*world, p);
                            assert forall|k: int| 0 <= k < out.len() implies visited(x0, y0, y1, cx as int, cy + 1, center_chunk(cfg, #[trigger] out@[k].1)) by {
                                if k < before.len() {
                                    assert(out@[k] == before[k]);
                                }
                            }
                            assert forall|k1: int, k2: int| 0 <= k1 < k2 < out.len() implies #[trigger] out@[k1].0 != #[trigger] out@[k2].0 by {
                                if k2 < before.len() {
                                    assert(out@[k1] == before[k1]);
                                    assert(out@[k2] == before[k2]);
                                } else if k1 < before.len() {
                                    assert(out@[k1] == before[k1]);
                                    assert(visited(x0, y0, y1, cx as int, cy as int, center_chunk(cfg, out@[k1].1)));
                                    assert(center_chunk(cfg, out@[k2].1) == p);
                                }
                            }
                            assert forall|k1: int, k2: int| 0 <= k1 < k2 < out.len() implies self.listed_before(cfg, #[trigger] out@[k1], #[trigger] out@[k2]) by {
                                if k2 < before.len() {
                                    assert(out@[k1] == before[k1]);
                                    assert(out@[k2] == before[k2]);
                                } else if k1 < before.len() {
                                    assert(out@[k1] == before[k1]);
                                    assert(visited(x0, y0, y1, cx as int, cy as int, center_chunk(cfg, out@[k1].1)));
                                    assert(center_chunk(cfg, out@[k2].1) == p);
                                }
                            }
                            assert forall|h: int|
                                #[trigger] self.live(h) && self.box_of(h).overlaps(q) && visited(x0, y0, y1, cx as int, cy + 1, center_chunk(cfg, self.box_of(h)))
                                    implies exists|k: int| 0 <= k < out.len() && #[trigger] out@[k].0 == h by {
                                if center_chunk(cfg, self.box_of(h)) == p {
                                    lemma_lookup_injective(*world, center_chunk(cfg, self.box_of(h)), p);
                                    assert(self.place(h).chunk == id);
                                    assert(id < self.chunks.len());
                                } else {
                                    let k = choose|k: int| 0 <= k < before.len() && #[trigger] before[k].0 == h;
                                    assert(out@[k] == before[k]);
                                }
                            }
                        }
                    },
                    None => {
                        proof {
                            assert forall|h: int|
                                #[trigger] self.live(h) && self.box_of(h).overlaps(q) && visited(x0, y0, y1, cx as int, cy + 1, center_chunk(cfg, self.box_of(h)))
                                    implies exists|k: int| 0 <= k < out.len() && #[trigger] out@[k].0 == h by {
                                if center_chunk(cfg, self.box_of(h)) == p {
                                    assert(world.lookup(p) is Some);
                                }
                            }
                        }
                    },
                }
                cy += 1;
            }
            cx += 1;
        }
        proof {
            assert forall|h: int|
                #[trigger] self.boxes().contains_key(h) && self.boxes()[h].overlaps(q) && covers(
                    world.layer(),
                    q,
                    center_chunk(world.layer(), self.boxes()[h]),
                ) implies exists|k: int| 0 <= k < out.len() && #[trigger] out@[k].0 == h by {
                assert(self.live(h));
                assert(visited(x0, y0, y1, cx as int, y0, center_chunk(cfg, self.box_of(h))));
            }
            assert forall|h: int|
                #[trigger] self.boxes().contains_key(h) && self.boxes()[h].overlaps(q) && within_margin(self.boxes()[h])
                    implies exists|k: int| 0 <= k < out.len() && #[trigger] out@[k].0 == h by {
                assert(self.live(h));
                lemma_margin_covers(cfg, q, self.box_of(h));
                assert(visited(x0, y0, y1, cx as int, y0, center_chunk(cfg, self.box_of(h))));
            }
        }
        out
    }

    /// The index stays valid as the world only grows.
    pub proof fn lemma_wf_grow(&self, w0: TileWorld, w1: TileWorld)
        requires
            self.wf(w0),
            w1.wf(),
            grows_from(w1, w0),
        ensures
            self.wf(w1),
    {
        assert forall|h: int| #[trigger] self.live(h) implies w1.lookup(center_chunk(w1.layer(), self.box_of(h)))
            == Some(self.place(h).chunk) by {
            assert(w0.chunks().contains_key(center_chunk(w0.layer(), self.box_of(h))));
        }
    }

    /// Makes sure the lists of chunk `c` exist.
    fn reserve_chunk(&mut self, w: Ghost<TileWorld>, c: ChunkId)
        requires
            old(self).wf(w@),
        ensures
            final(self).wf(w@),
            c < final(self).chunks.len(),
            final(self).records@ == old(self).records@,
            final(self).chunks.len() >= old(self).chunks.len(),
            forall|k: int| 0 <= k < old(self).chunks.len() ==> #[trigger] final(self).chunks@[k] == old(self).chunks@[k],
            forall|k: int| old(self).chunks.len() <= k < final(self).chunks.len() ==> #[trigger] final(self).chunks@[k].handles.len() == 0,
    {
        while self.chunks.len() <= c
            invariant
                self.wf(w@),
                self.records@ == old(self).records@,
                self.chunks.len() >= old(self).chunks.len(),
                forall|k: int| 0 <= k < old(self).chunks.len() ==> #[trigger] self.chunks@[k] == old(self).chunks@[k],
                forall|k: int| old(self).chunks.len() <= k < self.chunks.len() ==> #[trigger] self.chunks@[k].handles.len() == 0,
            decreases c + 1 - self.chunks.len(),
        {
            let ghost prev = *self;
            self.chunks.push(TrackedColliderChunk::empty());
            proof {
                assert forall|k: int| 0 <= k < prev.chunks.len() implies #[trigger] self.chunks@[k] == prev.chunks@[k] by {}
                assert forall|h: int| #[trigger] self.live(h) implies {
                    let p = self.place(h);
                    &&& p.chunk < self.chunks.len()
                    &&& p.index < self.chunks@[p.chunk as int].handles.len()
                    &&& self.chunks@[p.chunk as int].handles@[p.index as int] == h
                    &&& self.box_of(h).ok()
                    &&& w@.lookup(center_chunk(w@.layer(), self.box_of(h))) == Some(p.chunk)
                } by {
                    assert(prev.live(h));
                    assert(self.chunks@[prev.place(h).chunk as int] == prev.chunks@[prev.place(h).chunk as int]);
                }
                assert forall|c2: int| 0 <= c2 < self.chunks.len() implies #[trigger] self.chunks@[c2].aabbs.len()
                    == self.chunks@[c2].handles.len() by {
                    if c2 < prev.chunks.len() {
                        assert(self.chunks@[c2] == prev.chunks@[c2]);
                    }
                }
                assert forall|c2: int, i: int|
                    0 <= c2 < self.chunks.len() && 0 <= i < self.chunks@[c2].handles.len() implies {
                        let h = #[trigger] self.chunks@[c2].handles@[i];
                        &&& self.live(h as int)
                        &&& self.place(h as int) == (TrackedCollider { chunk: c2 as ChunkId, index: i as usize })
                    } by {
                    assert(c2 < prev.chunks.len());
                    assert(self.chunks@[c2] == prev.chunks@[c2]);
                }
            }
        }
    }
}

/// An index that is valid against a world has consistent lists and records.
pub proof fn lemma_wf_consistent(c: &WorldColliders, w: TileWorld)
    requires
        c.wf(w),
    ensures
        c.consistent(),
{
}

/// Every live collider's recorded index is its actual position in its
/// chunk's lists, and distinct live colliders never share a position.
pub proof fn lemma_index_consistent(c: &WorldColliders, h: int, g: int)
    requires
        c.consistent(),
        c.live(h),
    ensures
        c.place(h).index < c.chunk_len(c.place(h).chunk as int),
        c.handle_at(c.place(h).chunk as int, c.place(h).index as int) == h,
        c.live(g) && g != h ==> c.place(g) != c.place(h),
{
    if c.live(g) && g != h && c.place(g) == c.place(h) {
        assert(c.handle_at(c.place(g).chunk as int, c.place(g).index as int) == g);
    }
}

} // verus!
