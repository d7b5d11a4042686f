//! The sparse chunked tile grid: chunks created on first write, linked to
//! their cardinal neighbours in both directions.
use vstd::prelude::*;
use crate::config::{
    chunk_of, local_of, local_ok, tile_slot, face_of_slot, TileFace, TileLayerConfig, CHUNK_AREA,
    CHUNK_EDGE,
};
use crate::chunk_index::{index_entries, index_get, index_insert, index_new, index_remove, ChunkIndex};
use crate::geometry::IVec2;
use crate::material::{MaterialId, AIR};
use crate::notify::Deferred;

verus! {

/// Largest magnitude of a chunk coordinate that the world holds.
pub const CHUNK_REACH: i64 = 68719476736;

/// Distance between the keys of two chunks that differ by one in x.
pub const KEY_STRIDE: i128 = 4398046511104;

/// Chunk coordinates within this magnitude have distinct keys.
pub const KEY_RANGE: i64 = 1099511627776;

/// Handle of a chunk: its slot in the world. Slots are never reused.
pub type ChunkId = usize;

/// A chunk coordinate that the world can hold.
pub open spec fn chunk_pos_ok(p: (int, int)) -> bool {
    -CHUNK_REACH <= p.0 <= CHUNK_REACH && -CHUNK_REACH <= p.1 <= CHUNK_REACH
}

pub open spec fn key_ok(p: (int, int)) -> bool {
    -KEY_RANGE < p.0 < KEY_RANGE && -KEY_RANGE < p.1 < KEY_RANGE
}

pub open spec fn chunk_key(p: (int, int)) -> int {
    p.0 * KEY_STRIDE + p.1
}

pub open spec fn cell(p: IVec2) -> (int, int) {
    (p.x as int, p.y as int)
}

/// The chunk coordinate next to `p` across the face with slot `f`.
pub open spec fn beside(p: (int, int), f: int) -> (int, int) {
    (p.0 + face_of_slot(f).dx(), p.1 + face_of_slot(f).dy())
}

/// The slot of the face opposite to the face with slot `f`.
pub open spec fn opposite_slot(f: int) -> int {
    face_of_slot(f).opposite().slot()
}

proof fn lemma_key_injective(p: (int, int), q: (int, int))
    requires
        key_ok(p),
        key_ok(q),
        chunk_key(p) == chunk_key(q),
    ensures
        p == q,
{
    let s = KEY_STRIDE as int;
    assert(p.0 == q.0) by (nonlinear_arith)
        requires
            p.0 * s + p.1 == q.0 * s + q.1,
            s == 4398046511104,
            -1099511627776 < p.1 < 1099511627776,
            -1099511627776 < q.1 < 1099511627776;
}

proof fn lemma_key_range(p: (int, int))
    requires
        key_ok(p),
    ensures
        -0x7fff_ffff_ffff_ffff_ffff_ffff_ffff_ffff <= chunk_key(p) <= 0x7fff_ffff_ffff_ffff_ffff_ffff_ffff_ffff,
{
    let s = KEY_STRIDE as int;
    assert(-KEY_RANGE * s <= p.0 * s <= KEY_RANGE * s) by (nonlinear_arith)
        requires -KEY_RANGE < p.0 < KEY_RANGE, s == 4398046511104;
}

proof fn lemma_beside(p: (int, int), f: int)
    requires
        0 <= f < 4,
    ensures
        beside(beside(p, f), opposite_slot(f)) == p,
        beside(p, f) != p,
        forall|g: int| 0 <= g < 4 && g != f ==> beside(p, g) != beside(p, f),
        0 <= opposite_slot(f) < 4,
        opposite_slot(opposite_slot(f)) == f,
{
}

proof fn lemma_local_ok(t: (int, int))
    ensures
        local_ok(IVec2 { x: local_of(t.0) as i64, y: local_of(t.1) as i64 }),
{
    let e = CHUNK_EDGE as int;
    let (a, b) = t;
    assert(0 <= a - e * (a / e) < e) by (nonlinear_arith)
        requires e == 16;
    assert(0 <= b - e * (b / e) < e) by (nonlinear_arith)
        requires e == 16;
}

/// The chunk of an in-range tile coordinate is within the world's reach.
pub proof fn lemma_chunk_reach(t: IVec2)
    requires
        t.ok(),
    ensures
        chunk_pos_ok((chunk_of(t.x as int), chunk_of(t.y as int))),
        key_ok((chunk_of(t.x as int), chunk_of(t.y as int))),
{
    let e = CHUNK_EDGE as int;
    let a = t.x as int;
    let b = t.y as int;
    assert(-CHUNK_REACH <= a / e <= CHUNK_REACH) by (nonlinear_arith)
        requires e == 16, -1099511627776 <= a <= 1099511627776;
    assert(-CHUNK_REACH <= b / e <= CHUNK_REACH) by (nonlinear_arith)
        requires e == 16, -1099511627776 <= b <= 1099511627776;
}

/// Two distinct tile coordinates in the same chunk have distinct local coordinates.
proof fn lemma_same_chunk_other_local(t: (int, int), u: (int, int))
    requires
        t != u,
        chunk_of(t.0) == chunk_of(u.0),
        chunk_of(t.1) == chunk_of(u.1),
    ensures
        (IVec2 { x: local_of(t.0) as i64, y: local_of(t.1) as i64 }) != (IVec2 {
            x: local_of(u.0) as i64,
            y: local_of(u.1) as i64,
        }),
{
    lemma_local_ok(t);
    lemma_local_ok(u);
}

/// Key of an in-range chunk coordinate in the world's index.
fn key_of(p: IVec2) -> (k: i128)
    requires
        key_ok(cell(p)),
    ensures
        k == chunk_key(cell(p)),
{
    proof {
        lemma_key_range(cell(p));
    }
    (p.x as i128) * KEY_STRIDE + (p.y as i128)
}

/// Notification that the world created a chunk.
#[derive(Clone, Copy, Debug, PartialEq, Eq, Structural)]
pub struct WorldCreatedChunk {
    pub chunk: ChunkId,
    pub pos: IVec2,
}

/// What `chunk_or_create(pos)` leaves behind: an existing chunk is
/// returned and nothing changes; otherwise a new chunk, in the next slot,
/// is entered at `pos`, every tile still reads as before, and exactly one
/// creation notification is queued.
pub open spec fn chunk_or_create_post(w0: TileWorld, w1: TileWorld, pos: IVec2, r: ChunkId) -> bool {
    if w0.chunks().contains_key(cell(pos)) {
        r == w0.chunks()[cell(pos)] && w1 == w0
    } else {
        &&& r == w0.slot_count()
        &&& w1.slot_count() == w0.slot_count() + 1
        &&& w1.chunks() == w0.chunks().insert(cell(pos), r)
        &&& w1.events() == w0.events().push(WorldCreatedChunk { chunk: r, pos })
        &&& w1.layer() == w0.layer()
        &&& forall|t: (int, int)| #[trigger] w1.tile_at(t) == w0.tile_at(t)
    }
}

/// A square of `CHUNK_EDGE` by `CHUNK_EDGE` tiles.
#[derive(Debug)]
pub struct TileChunk {
    in_world: bool,
    neighbors: Vec<Option<ChunkId>>,
    pos: IVec2,
    tiles: Vec<u16>,
}

impl TileChunk {
    pub closed spec fn at(&self) -> (int, int) {
        cell(self.pos)
    }

    /// The chunk linked across the face with slot `f`.
    pub closed spec fn link(&self, f: int) -> Option<ChunkId> {
        self.neighbors@[f]
    }

    /// Material at a chunk-local coordinate.
    pub closed spec fn cell_at(&self, l: IVec2) -> u16 {
        self.tiles@[tile_slot(l)]
    }

    /// The chunk still belongs to a world.
    pub closed spec fn linked(&self) -> bool {
        self.in_world
    }

    pub closed spec fn ok(&self) -> bool {
        &&& self.neighbors.len() == 4
        &&& self.tiles.len() == CHUNK_AREA
        &&& chunk_pos_ok(cell(self.pos))
    }

    fn empty(pos: IVec2) -> (r: TileChunk)
        requires
            chunk_pos_ok(cell(pos)),
        ensures
            r.ok(),
            r.linked(),
            r.at() == cell(pos),
            forall|f: int| 0 <= f < 4 ==> r.link(f) is None,
            forall|l: IVec2| local_ok(l) ==> r.cell_at(l) == 0,
    {
        let tiles: Vec<u16> = vec![0u16; CHUNK_AREA];
        let neighbors: Vec<Option<ChunkId>> = vec![None, None, None, None];
        let r = TileChunk { in_world: true, neighbors, pos, tiles };
        assert forall|l: IVec2| local_ok(l) implies r.cell_at(l) == 0 by {
            assert(0 <= tile_slot(l) < CHUNK_AREA);
        }
        r
    }

    /// The chunk coordinate of this chunk.
    pub fn pos(&self) -> (r: IVec2)
        ensures
            cell(r) == self.at(),
    {
        self.pos
    }

    /// Whether the chunk still belongs to a world.
    pub fn in_world(&self) -> (r: bool)
        ensures
            r == self.linked(),
    {
        self.in_world
    }

    /// The chunk linked across `face`, if any.
    pub fn neighbor(&self, face: TileFace) -> (r: Option<ChunkId>)
        requires
            self.ok(),
        ensures
            r == self.link(face.slot()),
    {
        self.neighbors[face.index()]
    }

    /// The material at chunk-local coordinate `l`.
    pub fn tile(&self, l: IVec2) -> (r: MaterialId)
        requires
            self.ok(),
            local_ok(l),
        ensures
            r.0 == self.cell_at(l),
    {
        MaterialId(self.tiles[TileLayerConfig::to_tile_index(l)])
    }

    /// Writes the material at chunk-local coordinate `l`.
    pub fn set_tile(&mut self, l: IVec2, m: MaterialId)
        requires
            old(self).ok(),
            local_ok(l),
        ensures
            final(self).ok(),
            final(self).at() == old(self).at(),
            final(self).linked() == old(self).linked(),
            forall|f: int| #[trigger] final(self).link(f) == old(self).link(f),
            final(self).cell_at(l) == m.0,
            forall|o: IVec2|
                local_ok(o) && o != l ==> #[trigger] final(self).cell_at(o) == old(self).cell_at(o),
    {
        let i = TileLayerConfig::to_tile_index(l);
        self.tiles[i] = m.0;
        assert forall|o: IVec2| local_ok(o) && o != l implies #[trigger] self.cell_at(o) == old(self).cell_at(o) by {
            assert(tile_slot(o) != tile_slot(l));
        }
    }
}

/// The tile grid.
#[derive(Debug)]
pub struct TileWorld {
    config: TileLayerConfig,
    index: ChunkIndex,
    slots: Vec<Option<TileChunk>>,
    created: Deferred<WorldCreatedChunk>,
}

impl TileWorld {
    /// The chunk coordinates that hold a chunk, and the chunk at each.
    pub closed spec fn chunks(&self) -> Map<(int, int), ChunkId> {
        Map::new(
            |p: (int, int)| key_ok(p) && index_entries(self.index).contains_key(chunk_key(p) as i128),
            |p: (int, int)| index_entries(self.index)[chunk_key(p) as i128],
        )
    }

    /// The chunk at chunk coordinate `p`, if there is one.
    pub open spec fn lookup(&self, p: (int, int)) -> Option<ChunkId> {
        if self.chunks().contains_key(p) {
            Some(self.chunks()[p])
        } else {
            None
        }
    }

    /// Slot `id` holds a chunk.
    pub closed spec fn live(&self, id: int) -> bool {
        0 <= id < self.slots.len() && self.slots@[id] is Some
    }

    /// The chunk in slot `id`.
    pub closed spec fn chunk_at(&self, id: int) -> TileChunk {
        self.slots@[id]->Some_0
    }

    /// Number of slots ever handed out.
    pub closed spec fn slot_count(&self) -> nat {
        self.slots.len() as nat
    }

    /// Creation notifications not yet handed to a consumer.
    pub closed spec fn events(&self) -> Seq<WorldCreatedChunk> {
        self.created@
    }

    pub closed spec fn layer(&self) -> TileLayerConfig {
        self.config
    }

    /// The material at tile coordinate `t`: air where no chunk exists.
    pub open spec fn tile_at(&self, t: (int, int)) -> u16 {
        let c = (chunk_of(t.0), chunk_of(t.1));
        let l = IVec2 { x: local_of(t.0) as i64, y: local_of(t.1) as i64 };
        match self.lookup(c) {
            Some(id) => self.chunk_at(id as int).cell_at(l),
            None => 0,
        }
    }

    /// The world's invariant: the index and the slots agree, and every
    /// chunk's neighbour link across each face names exactly the chunk at
    /// the coordinate beyond that face.
    pub closed spec fn wf(&self) -> bool {
        &&& self.config.ok()
        &&& forall|p: (int, int)| #[trigger]
            self.chunks().contains_key(p) ==> chunk_pos_ok(p) && self.live(self.chunks()[p] as int)
                && self.chunk_at(self.chunks()[p] as int).at() == p
        &&& forall|id: int| #[trigger]
            self.live(id) ==> self.chunk_at(id).ok() && self.chunk_at(id).linked()
                && self.lookup(self.chunk_at(id).at()) == Some(id as ChunkId)
        &&& forall|id: int, f: int|
            self.live(id) && 0 <= f < 4 ==> #[trigger] self.chunk_at(id).link(f) == self.lookup(
                beside(self.chunk_at(id).at(), f),
            )
    }

    /// An empty world with the given layout.
    pub fn new(config: TileLayerConfig) -> (r: TileWorld)
        requires
            config.ok(),
        ensures
            r.wf(),
            r.layer() == config,
            r.chunks() == Map::<(int, int), ChunkId>::empty(),
            r.events() == Seq::<WorldCreatedChunk>::empty(),
            r.slot_count() == 0,
    {
        let r = TileWorld {
            config,
            index: index_new(),
            slots: Vec::new(),
            created: Deferred::new(),
        };
        assert(r.chunks() =~= Map::<(int, int), ChunkId>::empty());
        r
    }

    /// Sets the link of live chunk `id` across the face with slot `f`.
    fn set_link(&mut self, id: ChunkId, f: usize, v: Option<ChunkId>)
        requires
            old(self).live(id as int),
            old(self).chunk_at(id as int).ok(),
            f < 4,
        ensures
            final(self).config == old(self).config,
            index_entries(final(self).index) == index_entries(old(self).index),
            final(self).created@ == old(self).created@,
            final(self).slots.len() == old(self).slots.len(),
            forall|j: int|
                0 <= j < old(self).slots.len() && j != id ==> #[trigger] final(self).slots@[j]
                    == old(self).slots@[j],
            final(self).live(id as int),
            final(self).chunk_at(id as int).ok(),
            final(self).chunk_at(id as int).at() == old(self).chunk_at(id as int).at(),
            final(self).chunk_at(id as int).linked() == old(self).chunk_at(id as int).linked(),
            final(self).chunk_at(id as int).tiles@ == old(self).chunk_at(id as int).tiles@,
            final(self).chunk_at(id as int).neighbors@ == old(self).chunk_at(id as int).neighbors@.update(f as int, v),
    {
        let mut slot = self.slots[id].take();
        match slot {
            Some(ref mut ch) => {
                ch.neighbors[f] = v;
            },
            None => {},
        }
        self.slots[id] = slot;
    }

    /// The chunk at chunk coordinate `pos`, created if absent.
    ///
    /// A new chunk is empty (all air), takes the next slot, is linked in
    /// both directions to each existing chunk beside it, and queues one
    /// creation notification. An existing chunk is returned with the world
    /// left as it was.
    pub fn chunk_or_create(&mut self, pos: IVec2) -> (r: ChunkId)
        requires
            old(self).wf(),
            chunk_pos_ok(cell(pos)),
            old(self).slot_count() < usize::MAX,
        ensures
            final(self).wf(),
            chunk_or_create_post(*old(self), *final(self), pos, r),
    {
        proof {
            lemma_key_range(cell(pos));
        }
        let k = key_of(pos);
        match index_get(&self.index, k) {
            Some(id) => {
                assert(self.chunks().contains_key(cell(pos)));
                return id;
            },
            None => {},
        }
        assert(!self.chunks().contains_key(cell(pos)));
        let id = self.slots.len();
        let mut chunk = TileChunk::empty(pos);
        let ghost w0 = *self;
        let mut f: usize = 0;
        while f < 4
            invariant
                0 <= f <= 4,
                w0.wf(),
                !w0.chunks().contains_key(cell(pos)),
                chunk_pos_ok(cell(pos)),
                id == w0.slots.len(),
                self.config == w0.config,
                index_entries(self.index) == index_entries(w0.index),
                self.created@ == w0.created@,
                self.slots.len() == w0.slots.len(),
                forall|j: int| #[trigger] self.live(j) == w0.live(j),
                forall|j: int|
                    w0.live(j) ==> #[trigger] self.chunk_at(j).at() == w0.chunk_at(j).at()
                        && self.chunk_at(j).ok() && self.chunk_at(j).linked()
                        && self.chunk_at(j).tiles@ == w0.chunk_at(j).tiles@,
                forall|j: int, g: int|
                    w0.live(j) && 0 <= g < 4 ==> #[trigger] self.chunk_at(j).link(g) == if beside(
                        w0.chunk_at(j).at(),
                        g,
                    ) == cell(pos) && opposite_slot(g) < f {
                        Some(id)
                    } else {
                        w0.chunk_at(j).link(g)
                    },
                chunk.ok(),
                chunk.linked(),
                chunk.at() == cell(pos),
                forall|l: IVec2| local_ok(l) ==> #[trigger] chunk.cell_at(l) == 0,
                forall|g: int|
                    0 <= g < 4 ==> #[trigger] chunk.link(g) == if g < f {
                        w0.lookup(beside(cell(pos), g))
                    } else {
                        None
                    },
            decreases 4 - f,
        {
            let face = TileFace::from_slot(f);
            let d = face.as_ivec();
            let np = IVec2 { x: pos.x + d.x, y: pos.y + d.y };
            proof {
                lemma_beside(cell(pos), f as int);
                lemma_key_range(cell(np));
            }
            let nk = key_of(np);
            let ghost before = *self;
            match index_get(&self.index, nk) {
                Some(nid) => {
                    assert(w0.chunks().contains_key(cell(np)));
                    assert(w0.live(nid as int));
                    assert(w0.lookup(cell(np)) == Some(nid));
                    assert(w0.chunk_at(nid as int).at() == cell(np));
                    assert(self.live(nid as int));
                    assert(self.chunk_at(nid as int).at() == w0.chunk_at(nid as int).at());
                    let ghost c0 = chunk;
                    chunk.neighbors[f] = Some(nid);
                    assert(chunk.tiles@ == c0.tiles@);
                    assert forall|l: IVec2| local_ok(l) implies #[trigger] chunk.cell_at(l) == 0 by {
                        assert(c0.cell_at(l) == 0);
                    }
                    assert(beside(cell(pos), f as int) == cell(np));
                    assert forall|g: int|
                        0 <= g < 4 implies #[trigger] chunk.link(g) == if g < f + 1 {
                            w0.lookup(beside(cell(pos), g))
                        } else {
                            None
                        } by {
                        if g != f {
                            assert(c0.link(g) == chunk.link(g));
                        }
                    }
                    self.set_link(nid, face.invert().index(), Some(id));
                    proof {
                        lemma_beside(cell(np), opposite_slot(f as int));
                        assert forall|j: int| #[trigger] self.live(j) == w0.live(j) by {
                            assert(before.live(j) == w0.live(j));
                            if 0 <= j < self.slots.len() && j != nid {
                                assert(self.slots@[j] == before.slots@[j]);
                            }
                        }
                        assert forall|j: int|
                            w0.live(j) implies #[trigger] self.chunk_at(j).at() == w0.chunk_at(j).at()
                                && self.chunk_at(j).ok() && self.chunk_at(j).linked()
                                && self.chunk_at(j).tiles@ == w0.chunk_at(j).tiles@ by {
                            assert(before.live(j));
                            assert(before.chunk_at(j).at() == w0.chunk_at(j).at());
                            if j != nid {
                                assert(self.slots@[j] == before.slots@[j]);
                            }
                        }
                        assert forall|j: int, g: int|
                            w0.live(j) && 0 <= g < 4 implies #[trigger] self.chunk_at(j).link(g) == if beside(
                                w0.chunk_at(j).at(),
                                g,
                            ) == cell(pos) && opposite_slot(g) < f + 1 {
                                Some(id)
                            } else {
                                w0.chunk_at(j).link(g)
                            } by {
                            if j == nid {
                                assert(self.chunk_at(j).link(g) == self.chunk_at(j).neighbors@[g]);
                                if g != opposite_slot(f as int) {
                                    assert(beside(cell(np), g) != cell(pos));
                                    assert(before.chunk_at(j).link(g) == before.chunk_at(j).neighbors@[g]);
                                }
                            } else {
                                assert(self.slots@[j] == before.slots@[j]);
                                if beside(w0.chunk_at(j).at(), g) == cell(pos) && opposite_slot(g) == f {
                                    lemma_beside(w0.chunk_at(j).at(), g);
                                    assert(w0.chunk_at(j).at() == cell(np));
                                    assert(w0.lookup(w0.chunk_at(j).at()) == Some(j as ChunkId));
                                }
                            }
                        }
                    }
                },
                None => {
                    assert(!w0.chunks().contains_key(cell(np)));
                    assert(beside(cell(pos), f as int) == cell(np));
                    proof {
                        assert forall|j: int, g: int|
                            w0.live(j) && 0 <= g < 4 implies #[trigger] self.chunk_at(j).link(g) == if beside(
                                w0.chunk_at(j).at(),
                                g,
                            ) == cell(pos) && opposite_slot(g) < f + 1 {
                                Some(id)
                            } else {
                                w0.chunk_at(j).link(g)
                            } by {
                            if beside(w0.chunk_at(j).at(), g) == cell(pos) && opposite_slot(g) == f {
                                lemma_beside(w0.chunk_at(j).at(), g);
                                assert(w0.lookup(w0.chunk_at(j).at()) == Some(j as ChunkId));
                            }
                        }
                    }
                },
            }
            f += 1;
        }
        let ghost w1 = *self;
        index_insert(&mut self.index, k, id);
        self.slots.push(Some(chunk));
        self.created.queue_run(WorldCreatedChunk { chunk: id, pos });
        proof {
            assert(self.chunks() =~= w0.chunks().insert(cell(pos), id)) by {
                assert forall|p: (int, int)| key_ok(p) && chunk_key(p) == chunk_key(cell(pos)) implies p == cell(pos) by {
                    lemma_key_injective(p, cell(pos));
                }
            }
            assert(self.live(id as int));
            assert(self.chunk_at(id as int) == chunk);
            assert forall|j: int| #[trigger] self.live(j) implies self.chunk_at(j).ok() && self.chunk_at(j).linked()
                && self.lookup(self.chunk_at(j).at()) == Some(j as ChunkId) by {
                if j == id {
                    assert(self.chunks().contains_key(cell(pos)));
                } else {
                    assert(self.slots@[j] == w1.slots@[j]);
                    assert(w1.live(j));
                    assert(w0.live(j));
                    assert(w1.chunk_at(j).at() == w0.chunk_at(j).at());
                    assert(w0.lookup(w0.chunk_at(j).at()) == Some(j as ChunkId));
                    assert(w0.chunk_at(j).at() != cell(pos));
                    assert(self.chunks().contains_key(w0.chunk_at(j).at()));
                }
            }
            assert forall|j: int, g: int|
                self.live(j) && 0 <= g < 4 implies #[trigger] self.chunk_at(j).link(g) == self.lookup(
                    beside(self.chunk_at(j).at(), g),
                ) by {
                lemma_beside(cell(pos), g);
                if j != id {
                    assert(self.slots@[j] == w1.slots@[j]);
                    assert(w1.live(j));
                    assert(w0.live(j));
                    assert(w1.chunk_at(j).at() == w0.chunk_at(j).at());
                    assert(w1.chunk_at(j).link(g) == if beside(w0.chunk_at(j).at(), g) == cell(pos)
                        && opposite_slot(g) < 4 {
                        Some(id)
                    } else {
                        w0.chunk_at(j).link(g)
                    });
                    assert(w0.chunk_at(j).link(g) == w0.lookup(beside(w0.chunk_at(j).at(), g)));
                }
            }
            assert forall|p: (int, int)| #[trigger] self.chunks().contains_key(p) implies chunk_pos_ok(p)
                && self.live(self.chunks()[p] as int) && self.chunk_at(self.chunks()[p] as int).at() == p by {
                if p != cell(pos) {
                    assert(w0.chunks().contains_key(p));
                    let j = w0.chunks()[p] as int;
                    assert(w0.live(j));
                    assert(w1.live(j));
                    assert(w1.chunk_at(j).at() == w0.chunk_at(j).at());
                    assert(self.slots@[j] == w1.slots@[j]);
                }
            }
            assert forall|t: (int, int)| #[trigger] self.tile_at(t) == w0.tile_at(t) by {
                let c = (chunk_of(t.0), chunk_of(t.1));
                if c != cell(pos) {
                    if w0.chunks().contains_key(c) {
                        let j = w0.chunks()[c] as int;
                        assert(w0.live(j));
                        assert(w1.live(j));
                        assert(w1.chunk_at(j).at() == w0.chunk_at(j).at());
                        assert(self.slots@[j] == w1.slots@[j]);
                    }
                } else {
                    lemma_local_ok(t);
                }
            }
        }
        id
    }

    /// Writes `v` into the tile array of live chunk `id`.
    fn set_cell(&mut self, id: ChunkId, l: IVec2, v: MaterialId)
        requires
            old(self).live(id as int),
            old(self).chunk_at(id as int).ok(),
            local_ok(l),
        ensures
            final(self).config == old(self).config,
            index_entries(final(self).index) == index_entries(old(self).index),
            final(self).created@ == old(self).created@,
            final(self).slots.len() == old(self).slots.len(),
            forall|j: int|
                0 <= j < old(self).slots.len() && j != id ==> #[trigger] final(self).slots@[j]
                    == old(self).slots@[j],
            final(self).live(id as int),
            final(self).chunk_at(id as int).ok(),
            final(self).chunk_at(id as int).at() == old(self).chunk_at(id as int).at(),
            final(self).chunk_at(id as int).linked() == old(self).chunk_at(id as int).linked(),
            final(self).chunk_at(id as int).neighbors@ == old(self).chunk_at(id as int).neighbors@,
            final(self).chunk_at(id as int).cell_at(l) == v.0,
            forall|o: IVec2|
                local_ok(o) && o != l ==> #[trigger] final(self).chunk_at(id as int).cell_at(o)
                    == old(self).chunk_at(id as int).cell_at(o),
    {
        let mut slot = self.slots[id].take();
        match slot {
            Some(ref mut ch) => {
                ch.set_tile(l, v);
            },
            None => {},
        }
        self.slots[id] = slot;
        proof {
            let c = self.chunk_at(id as int);
            let c0 = old(self).chunk_at(id as int);
            assert forall|f: int| 0 <= f < 4 implies c.neighbors@[f] == c0.neighbors@[f] by {
                assert(c.link(f) == c0.link(f));
            }
            assert(c.neighbors@ =~= c0.neighbors@);
        }
    }

    /// The material of the tile at tile coordinate `pos`; air where its
    /// chunk does not exist. Never creates a chunk.
    pub fn tile(&self, pos: IVec2) -> (r: MaterialId)
        requires
            self.wf(),
            pos.ok(),
        ensures
            r.0 == self.tile_at(cell(pos)),
    {
        let (c, l) = TileLayerConfig::decompose_world_pos(pos);
        proof {
            lemma_chunk_reach(pos);
        }
        let k = key_of(c);
        match index_get(&self.index, k) {
            Some(id) => {
                assert(self.chunks().contains_key(cell(c)));
                assert(self.live(id as int));
                match &self.slots[id] {
                    Some(ch) => ch.tile(l),
                    None => MaterialId(AIR),
                }
            },
            None => {
                assert(!self.chunks().contains_key(cell(c)));
                MaterialId(AIR)
            },
        }
    }

    /// Writes material `m` at tile coordinate `pos`, creating its chunk
    /// (and queueing its creation notification) if absent.
    pub fn set_tile(&mut self, pos: IVec2, m: MaterialId)
        requires
            old(self).wf(),
            pos.ok(),
            old(self).slot_count() < usize::MAX,
        ensures
            final(self).wf(),
            final(self).layer() == old(self).layer(),
            forall|t: (int, int)| #[trigger]
                final(self).tile_at(t) == if t == cell(pos) {
                    m.0
                } else {
                    old(self).tile_at(t)
                },
            ({
                let c = (chunk_of(pos.x as int), chunk_of(pos.y as int));
                if old(self).chunks().contains_key(c) {
                    final(self).chunks() == old(self).chunks() && final(self).events() == old(self).events()
                        && final(self).slot_count() == old(self).slot_count()
                } else {
                    final(self).chunks() == old(self).chunks().insert(c, old(self).slot_count() as ChunkId)
                        && final(self).events() == old(self).events().push(
                        WorldCreatedChunk {
                            chunk: old(self).slot_count() as ChunkId,
                            pos: IVec2 { x: c.0 as i64, y: c.1 as i64 },
                        },
                    ) && final(self).slot_count() == old(self).slot_count() + 1
                }
            }),
    {
        let (c, l) = TileLayerConfig::decompose_world_pos(pos);
        proof {
            lemma_chunk_reach(pos);
        }
        let id = self.chunk_or_create(c);
        let ghost w1 = *self;
        assert(w1.live(id as int)) by {
            assert(w1.chunks().contains_key(cell(c)));
        }
        self.set_cell(id, l, m);
        proof {
            assert(self.chunks() =~= w1.chunks());
            assert forall|j: int| #[trigger] self.live(j) implies self.chunk_at(j).ok() && self.chunk_at(j).linked()
                && self.lookup(self.chunk_at(j).at()) == Some(j as ChunkId) by {
                assert(w1.live(j));
                if j != id {
                    assert(self.slots@[j] == w1.slots@[j]);
                }
            }
            assert forall|j: int, g: int|
                self.live(j) && 0 <= g < 4 implies #[trigger] self.chunk_at(j).link(g) == self.lookup(
                    beside(self.chunk_at(j).at(), g),
                ) by {
                assert(w1.live(j));
                if j != id {
                    assert(self.slots@[j] == w1.slots@[j]);
                }
                assert(w1.chunk_at(j).link(g) == w1.lookup(beside(w1.chunk_at(j).at(), g)));
            }
            assert forall|p: (int, int)| #[trigger] self.chunks().contains_key(p) implies chunk_pos_ok(p)
                && self.live(self.chunks()[p] as int) && self.chunk_at(self.chunks()[p] as int).at() == p by {
                let j = w1.chunks()[p] as int;
                assert(w1.live(j));
                if j != id {
                    assert(self.slots@[j] == w1.slots@[j]);
                }
            }
            assert forall|t: (int, int)| #[trigger]
                self.tile_at(t) == if t == cell(pos) {
                    m.0
                } else {
                    old(self).tile_at(t)
                } by {
                assert(w1.tile_at(t) == old(self).tile_at(t));
                let tc = (chunk_of(t.0), chunk_of(t.1));
                let tl = IVec2 { x: local_of(t.0) as i64, y: local_of(t.1) as i64 };
                lemma_local_ok(t);
                if w1.chunks().contains_key(tc) {
                    let j = w1.chunks()[tc] as int;
                    assert(w1.live(j));
                    if j != id {
                        assert(self.slots@[j] == w1.slots@[j]);
                    } else {
                        assert(tc == cell(c));
                        if t != cell(pos) {
                            lemma_same_chunk_other_local(t, cell(pos));
                        }
                    }
                }
            }
        }
    }

    /// Takes chunk `id` out of the world: its coordinate leaves the index,
    /// each neighbour's link back to it is cleared, and the chunk comes
    /// back marked as no longer in a world. Nothing happens to a slot that
    /// holds no chunk.
    pub fn remove_chunk(&mut self, id: ChunkId) -> (r: Option<TileChunk>)
        requires
            old(self).wf(),
        ensures
            final(self).wf(),
            final(self).layer() == old(self).layer(),
            final(self).events() == old(self).events(),
            final(self).slot_count() == old(self).slot_count(),
            !final(self).live(id as int),
            old(self).live(id as int) ==> r is Some && r->Some_0.at() == old(self).chunk_at(id as int).at()
                && !r->Some_0.linked() && final(self).chunks() == old(self).chunks().remove(
                old(self).chunk_at(id as int).at(),
            ),
            old(self).live(id as int) ==> forall|t: (int, int)| #[trigger]
                final(self).tile_at(t) == if (chunk_of(t.0), chunk_of(t.1)) == old(self).chunk_at(id as int).at() {
                    0
                } else {
                    old(self).tile_at(t)
                },
            !old(self).live(id as int) ==> r is None && *final(self) == *old(self),
    {
        if id >= self.slots.len() || self.slots[id].is_none() {
            return None;
        }
        let taken = self.slots[id].take();
        match taken {
            None => None,
            Some(mut ch) => {
                let ghost w0 = *old(self);
                assert(w0.live(id as int));
                let pos = ch.pos;
                proof {
                    lemma_key_range(cell(pos));
                }
                let k = key_of(pos);
                index_remove(&mut self.index, k);
                proof {
                    assert(self.chunks() =~= w0.chunks().remove(cell(pos))) by {
                        assert forall|p: (int, int)| key_ok(p) && chunk_key(p) == chunk_key(cell(pos)) implies p == cell(pos) by {
                            lemma_key_injective(p, cell(pos));
                        }
                    }
                }
                let mut f: usize = 0;
                while f < 4
                    invariant
                        0 <= f <= 4,
                        w0.wf(),
                        w0.live(id as int),
                        ch == w0.chunk_at(id as int),
                        cell(pos) == ch.at(),
                        self.config == w0.config,
                        self.created@ == w0.created@,
                        self.chunks() == w0.chunks().remove(cell(pos)),
                        self.slots.len() == w0.slots.len(),
                        self.slots@[id as int] is None,
                        forall|j: int| j != id ==> #[trigger] self.live(j) == w0.live(j),
                        forall|j: int|
                            w0.live(j) && j != id ==> #[trigger] self.chunk_at(j).at() == w0.chunk_at(j).at()
                                && self.chunk_at(j).ok() && self.chunk_at(j).linked()
                                && self.chunk_at(j).tiles@ == w0.chunk_at(j).tiles@,
                        forall|j: int, g: int|
                            w0.live(j) && j != id && 0 <= g < 4 ==> #[trigger] self.chunk_at(j).link(g)
                                == if beside(w0.chunk_at(j).at(), g) == cell(pos) && opposite_slot(g) < f {
                                None
                            } else {
                                w0.chunk_at(j).link(g)
                            },
                    decreases 4 - f,
                {
                    let ghost before = *self;
                    proof {
                        lemma_beside(cell(pos), f as int);
                    }
                    match ch.neighbors[f] {
                        Some(nid) => {
                            assert(w0.chunk_at(id as int).link(f as int) == w0.lookup(beside(cell(pos), f as int)));
                            assert(w0.chunks().contains_key(beside(cell(pos), f as int)));
                            assert(w0.live(nid as int));
                            assert(w0.chunk_at(nid as int).at() == beside(cell(pos), f as int));
                            assert(nid != id);
                            assert(self.live(nid as int));
                            assert(self.chunk_at(nid as int).at() == w0.chunk_at(nid as int).at());
                            let face = TileFace::from_slot(f);
                            self.set_link(nid, face.invert().index(), None);
                            proof {
                                lemma_beside(beside(cell(pos), f as int), opposite_slot(f as int));
                                assert forall|j: int| j != id implies #[trigger] self.live(j) == w0.live(j) by {
                                    assert(before.live(j) == w0.live(j));
                                    if 0 <= j < self.slots.len() && j != nid {
                                        assert(self.slots@[j] == before.slots@[j]);
                                    }
                                }
                                assert forall|j: int|
                                    w0.live(j) && j != id implies #[trigger] self.chunk_at(j).at() == w0.chunk_at(j).at()
                                        && self.chunk_at(j).ok() && self.chunk_at(j).linked()
                                        && self.chunk_at(j).tiles@ == w0.chunk_at(j).tiles@ by {
                                    assert(before.chunk_at(j).at() == w0.chunk_at(j).at());
                                    if j != nid {
                                        assert(self.slots@[j] == before.slots@[j]);
                                    }
                                }
                                assert forall|j: int, g: int|
                                    w0.live(j) && j != id && 0 <= g < 4 implies #[trigger] self.chunk_at(j).link(g)
                                        == if beside(w0.chunk_at(j).at(), g) == cell(pos) && opposite_slot(g) < f + 1 {
                                        None
                                    } else {
                                        w0.chunk_at(j).link(g)
                                    } by {
                                    assert(before.chunk_at(j).at() == w0.chunk_at(j).at());
                                    assert(before.chunk_at(j).link(g) == if beside(w0.chunk_at(j).at(), g) == cell(pos) && opposite_slot(g) < f {
                                        None
                                    } else {
                                        w0.chunk_at(j).link(g)
                                    });
                                    if j == nid {
                                        assert(self.chunk_at(j).link(g) == self.chunk_at(j).neighbors@[g]);
                                        assert(before.chunk_at(j).link(g) == before.chunk_at(j).neighbors@[g]);
                                        if g != opposite_slot(f as int) {
                                            assert(beside(beside(cell(pos), f as int), g) != cell(pos));
                                        }
                                    } else {
                                        assert(self.slots@[j] == before.slots@[j]);
                                        if beside(w0.chunk_at(j).at(), g) == cell(pos) && opposite_slot(g) == f {
                                            lemma_beside(w0.chunk_at(j).at(), g);
                                            assert(w0.lookup(w0.chunk_at(j).at()) == Some(j as ChunkId));
                                        }
                                    }
                                }
                            }
                        },
                        None => {
                            proof {
                                assert forall|j: int, g: int|
                                    w0.live(j) && j != id && 0 <= g < 4 implies #[trigger] self.chunk_at(j).link(g)
                                        == if beside(w0.chunk_at(j).at(), g) == cell(pos) && opposite_slot(g) < f + 1 {
                                        None
                                    } else {
                                        w0.chunk_at(j).link(g)
                                    } by {
                                    if beside(w0.chunk_at(j).at(), g) == cell(pos) && opposite_slot(g) == f {
                                        lemma_beside(w0.chunk_at(j).at(), g);
                                        assert(w0.lookup(w0.chunk_at(j).at()) == Some(j as ChunkId));
                                        assert(w0.chunk_at(id as int).link(f as int) == w0.lookup(beside(cell(pos), f as int)));
                                    }
                                }
                            }
                        },
                    }
                    f += 1;
                }
                ch.in_world = false;
                proof {
                    assert forall|j: int| #[trigger] self.live(j) implies self.chunk_at(j).ok() && self.chunk_at(j).linked()
                        && self.lookup(self.chunk_at(j).at()) == Some(j as ChunkId) by {
                        assert(j != id);
                        assert(w0.live(j));
                        assert(w0.lookup(w0.chunk_at(j).at()) == Some(j as ChunkId));
                        assert(self.chunk_at(j).at() == w0.chunk_at(j).at());
                        assert(w0.chunk_at(j).at() != cell(pos));
                    }
                    assert forall|j: int, g: int|
                        self.live(j) && 0 <= g < 4 implies #[trigger] self.chunk_at(j).link(g) == self.lookup(
                            beside(self.chunk_at(j).at(), g),
                        ) by {
                        assert(j != id);
                        assert(w0.live(j));
                        assert(self.chunk_at(j).at() == w0.chunk_at(j).at());
                        assert(w0.chunk_at(j).link(g) == w0.lookup(beside(w0.chunk_at(j).at(), g)));
                    }
                    assert forall|p: (int, int)| #[trigger] self.chunks().contains_key(p) implies chunk_pos_ok(p)
                        && self.live(self.chunks()[p] as int) && self.chunk_at(self.chunks()[p] as int).at() == p by {
                        let j = w0.chunks()[p] as int;
                        assert(w0.live(j));
                        assert(j != id);
                        assert(self.chunk_at(j).at() == w0.chunk_at(j).at());
                    }
                    assert forall|t: (int, int)| #[trigger]
                        self.tile_at(t) == if (chunk_of(t.0), chunk_of(t.1)) == cell(pos) { 0 } else { w0.tile_at(t) } by {
                        let c = (chunk_of(t.0), chunk_of(t.1));
                        if c != cell(pos) && w0.chunks().contains_key(c) {
                            let j = w0.chunks()[c] as int;
                            assert(w0.live(j));
                            assert(j != id);
                            assert(self.chunk_at(j).tiles@ == w0.chunk_at(j).tiles@);
                        }
                    }
                }
                Some(ch)
            },
        }
    }

    /// The chunk at chunk coordinate `pos`, if it exists.
    pub fn chunk(&self, pos: IVec2) -> (r: Option<ChunkId>)
        requires
            self.wf(),
            chunk_pos_ok(cell(pos)),
        ensures
            r == self.lookup(cell(pos)),
    {
        proof {
            lemma_key_range(cell(pos));
        }
        let k = key_of(pos);
        index_get(&self.index, k)
    }

    /// The chunk in slot `id`, if the slot holds one.
    pub fn get(&self, id: ChunkId) -> (r: Option<&TileChunk>)
        ensures
            r is Some == self.live(id as int),
            r is Some ==> *r->Some_0 == self.chunk_at(id as int),
            self.wf() && r is Some ==> r->Some_0.linked() && r->Some_0.ok(),
    {
        if id < self.slots.len() {
            let r = self.slots[id].as_ref();
            proof {
                if self.wf() && r is Some {
                    assert(self.live(id as int));
                }
            }
            r
        } else {
            None
        }
    }

    /// Hands every queued creation notification, oldest first, to `out`.
    pub fn drain_created(&mut self, out: &mut Vec<WorldCreatedChunk>)
        requires
            old(self).wf(),
        ensures
            final(self).wf(),
            final(out)@ == old(out)@ + old(self).events(),
            final(self).events() == Seq::<WorldCreatedChunk>::empty(),
            final(self).chunks() == old(self).chunks(),
            final(self).slot_count() == old(self).slot_count(),
            final(self).layer() == old(self).layer(),
            forall|t: (int, int)| #[trigger] final(self).tile_at(t) == old(self).tile_at(t),
            forall|j: int| #[trigger] final(self).live(j) == old(self).live(j),
            forall|j: int| final(self).live(j) ==> #[trigger] final(self).chunk_at(j) == old(self).chunk_at(j),
    {
        self.created.run_now(out);
        proof {
            assert(self.chunks() =~= old(self).chunks());
            assert forall|j: int| #[trigger] self.live(j) implies self.chunk_at(j).ok() && self.chunk_at(j).linked()
                && self.lookup(self.chunk_at(j).at()) == Some(j as ChunkId) by {
                assert(old(self).live(j));
            }
            assert forall|j: int, g: int|
                self.live(j) && 0 <= g < 4 implies #[trigger] self.chunk_at(j).link(g) == self.lookup(
                    beside(self.chunk_at(j).at(), g),
                ) by {
                assert(old(self).chunk_at(j).link(g) == old(self).lookup(beside(old(self).chunk_at(j).at(), g)));
            }
            assert forall|p: (int, int)| #[trigger] self.chunks().contains_key(p) implies chunk_pos_ok(p)
                && self.live(self.chunks()[p] as int) && self.chunk_at(self.chunks()[p] as int).at() == p by {
                assert(old(self).chunks().contains_key(p));
            }
        }
    }

    /// The layout of the grid.
    pub fn config(&self) -> (r: TileLayerConfig)
        ensures
            r == self.layer(),
            self.wf() ==> r.ok(),
    {
        self.config
    }
}

/// `w1` holds every chunk of `w0` at the same coordinate and slot, with
/// the same layout, and has handed out at least as many slots.
pub open spec fn grows_from(w1: TileWorld, w0: TileWorld) -> bool {
    &&& w1.layer() == w0.layer()
    &&& w1.slot_count() >= w0.slot_count()
    &&& forall|p: (int, int)| #[trigger]
        w0.chunks().contains_key(p) ==> w1.chunks().contains_key(p) && w1.chunks()[p] == w0.chunks()[p]
}

/// `chunk_or_create` only ever adds a chunk.
pub proof fn lemma_chunk_or_create_grows(w0: TileWorld, w1: TileWorld, pos: IVec2, r: ChunkId)
    requires
        chunk_or_create_post(w0, w1, pos, r),
    ensures
        grows_from(w1, w0),
        w1.lookup(cell(pos)) == Some(r),
{
    if !w0.chunks().contains_key(cell(pos)) {
        assert(w1.chunks().contains_key(cell(pos)));
    }
}

/// Growth is transitive.
pub proof fn lemma_grows_trans(w0: TileWorld, w1: TileWorld, w2: TileWorld)
    requires
        grows_from(w1, w0),
        grows_from(w2, w1),
    ensures
        grows_from(w2, w0),
{
}

/// In a well-formed world, a coordinate's chunk is live and sits at that coordinate.
pub proof fn lemma_lookup_live(w: TileWorld, p: (int, int))
    requires
        w.wf(),
        w.lookup(p) is Some,
    ensures
        w.live(w.lookup(p)->Some_0 as int),
        w.chunk_at(w.lookup(p)->Some_0 as int).at() == p,
        w.lookup(w.chunk_at(w.lookup(p)->Some_0 as int).at()) == w.lookup(p),
{
    assert(w.chunks().contains_key(p));
}

/// Distinct coordinates hold distinct chunks.
pub proof fn lemma_lookup_injective(w: TileWorld, p: (int, int), q: (int, int))
    requires
        w.wf(),
        w.lookup(p) is Some,
        w.lookup(p) == w.lookup(q),
    ensures
        p == q,
{
    assert(w.chunks().contains_key(p));
    assert(w.chunks().contains_key(q));
}

/// Asking twice for the chunk at one coordinate returns the same chunk both
/// times, the second call changes nothing, and the two calls together
/// queue exactly one creation notification if the chunk was absent and
/// none if it existed.
pub proof fn lemma_chunk_or_create_idempotent(
    w0: TileWorld,
    w1: TileWorld,
    w2: TileWorld,
    pos: IVec2,
    r1: ChunkId,
    r2: ChunkId,
)
    requires
        chunk_or_create_post(w0, w1, pos, r1),
        chunk_or_create_post(w1, w2, pos, r2),
    ensures
        r1 == r2,
        w2 == w1,
        w2.events() == if w0.chunks().contains_key(cell(pos)) {
            w0.events()
        } else {
            w0.events().push(WorldCreatedChunk { chunk: r1, pos })
        },
{
    if !w0.chunks().contains_key(cell(pos)) {
        assert(w1.chunks().contains_key(cell(pos)));
    }
}

/// Neighbour links are symmetric: a link from chunk `a` across face slot
/// `f` names the chunk at the coordinate beyond that face, and that chunk
/// links back to `a` across the opposite face.
pub proof fn lemma_links_symmetric(w: TileWorld, a: int, f: int)
    requires
        w.wf(),
        w.live(a),
        0 <= f < 4,
        w.chunk_at(a).link(f) is Some,
    ensures
        ({
            let b = w.chunk_at(a).link(f)->Some_0 as int;
            &&& w.live(b)
            &&& w.chunk_at(b).at() == beside(w.chunk_at(a).at(), f)
            &&& w.chunk_at(b).link(opposite_slot(f)) == Some(a as ChunkId)
        }),
{
    let b = w.chunk_at(a).link(f)->Some_0 as int;
    let pa = w.chunk_at(a).at();
    assert(w.chunks().contains_key(beside(pa, f)));
    lemma_beside(pa, f);
    assert(w.chunk_at(b).link(opposite_slot(f)) == w.lookup(beside(w.chunk_at(b).at(), opposite_slot(f))));
}

/// Any two chunks at cardinally adjacent coordinates are linked to each
/// other across the faces that separate them.
pub proof fn lemma_neighbours_linked(w: TileWorld, a: int, b: int, f: int)
    requires
        w.wf(),
        w.live(a),
        w.live(b),
        0 <= f < 4,
        w.chunk_at(b).at() == beside(w.chunk_at(a).at(), f),
    ensures
        w.chunk_at(a).link(f) == Some(b as ChunkId),
        w.chunk_at(b).link(opposite_slot(f)) == Some(a as ChunkId),
{
    lemma_beside(w.chunk_at(a).at(), f);
    assert(w.lookup(w.chunk_at(b).at()) == Some(b as ChunkId));
    assert(w.lookup(w.chunk_at(a).at()) == Some(a as ChunkId));
    assert(w.chunk_at(a).link(f) == w.lookup(beside(w.chunk_at(a).at(), f)));
    assert(w.chunk_at(b).link(opposite_slot(f)) == w.lookup(beside(w.chunk_at(b).at(), opposite_slot(f))));
}

/// Once a slot holds no chunk, no chunk of the world links to it.
pub proof fn lemma_removed_unreferenced(w: TileWorld, id: ChunkId)
    requires
        w.wf(),
        !w.live(id as int),
    ensures
        forall|j: int, f: int| w.live(j) && 0 <= f < 4 ==> #[trigger] w.chunk_at(j).link(f) != Some(id),
{
    assert forall|j: int, f: int| w.live(j) && 0 <= f < 4 implies #[trigger] w.chunk_at(j).link(f) != Some(id) by {
        let p = beside(w.chunk_at(j).at(), f);
        if w.chunks().contains_key(p) {
            assert(w.live(w.chunks()[p] as int));
        }
    }
}

} // verus!
