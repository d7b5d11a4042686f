//! Materials: the registry that names them and the per-material collision
//! shapes used by movement.
use vstd::prelude::*;
use crate::geometry::Aabb;
use crate::small::{shape_items, shape_list, ShapeList};
use crate::name_index::{name_entries, names_get, names_insert, names_new, NameIndex};

verus! {

/// Identifier of a registered material; 0 is air.
#[derive(Clone, Copy, Debug, PartialEq, Eq, Hash, Structural)]
pub struct MaterialId(pub u16);

/// Raw value of air: no collision, not rendered, the value of every unset tile.
pub const AIR: u16 = 0;

impl MaterialId {
    /// The air material.
    pub fn air() -> (r: MaterialId)
        ensures
            r.0 == AIR,
    {
        MaterialId(AIR)
    }

    /// Whether this is air.
    pub fn is_air(self) -> (r: bool)
        ensures
            r == (self.0 == AIR),
    {
        self.0 == AIR
    }
}

/// What the registry records of a material.
#[derive(Debug)]
pub struct BaseMaterialDescriptor {
    pub id: MaterialId,
    pub name: String,
}

/// Denominator of the coordinates of a tile's collision shapes: a shape
/// coordinate `v` lies `v / SHAPE_UNIT` of a tile from the tile's corner.
pub const SHAPE_UNIT: i64 = 100;

/// The solid shape of one tile of a material: boxes in tile-local space,
/// each coordinate in `0..=SHAPE_UNIT`.
#[derive(Debug)]
pub struct TileColliderDescriptor {
    pub aabbs: ShapeList,
}

/// A shape box lies within its tile.
pub open spec fn shape_box_ok(b: Aabb) -> bool {
    &&& 0 <= b.min.x <= b.max.x <= SHAPE_UNIT
    &&& 0 <= b.min.y <= b.max.y <= SHAPE_UNIT
}

impl View for TileColliderDescriptor {
    type V = Seq<Aabb>;

    open spec fn view(&self) -> Seq<Aabb> {
        shape_items(self.aabbs)
    }
}

/// The shape boxes of an optional descriptor.
pub open spec fn shape_view(d: Option<TileColliderDescriptor>) -> Option<Seq<Aabb>> {
    match d {
        Some(d) => Some(d@),
        None => None,
    }
}

impl TileColliderDescriptor {
    /// Every box lies within the tile.
    pub open spec fn ok(&self) -> bool {
        forall|i: int| 0 <= i < self@.len() ==> shape_box_ok(#[trigger] self@[i])
    }

    /// A descriptor made of the given boxes.
    pub fn new(aabbs: Vec<Aabb>) -> (r: TileColliderDescriptor)
        ensures
            r@ == aabbs@,
    {
        TileColliderDescriptor { aabbs: shape_list(aabbs) }
    }

    /// A copy of this descriptor.
    pub fn duplicate(&self) -> (r: TileColliderDescriptor)
        ensures
            r@ == self@,
    {
        TileColliderDescriptor { aabbs: shape_list(self.aabbs.to_vec()) }
    }
}

fn duplicate_opt(d: &Option<TileColliderDescriptor>) -> (r: Option<TileColliderDescriptor>)
    ensures
        shape_view(r) == shape_view(*d),
{
    match d {
        Some(d) => Some(d.duplicate()),
        None => None,
    }
}

/// Largest number of materials a registry holds.
pub const MAX_MATERIALS: usize = 65536;

/// The materials: each registered name with its id, and its optional
/// collision shape. Registration is append-only; ids are handed out in
/// order from 0.
#[derive(Debug)]
pub struct MaterialRegistry {
    descriptors: Vec<BaseMaterialDescriptor>,
    shapes: Vec<Option<TileColliderDescriptor>>,
    by_name: NameIndex,
}

impl MaterialRegistry {
    /// The names, indexed by id.
    pub closed spec fn names(&self) -> Seq<Seq<char>> {
        self.descriptors@.map_values(|d: BaseMaterialDescriptor| d.name@)
    }

    /// The collision shape of material `i`, if it has one.
    pub closed spec fn shape_of(&self, i: int) -> Option<Seq<Aabb>> {
        shape_view(self.shapes@[i])
    }

    /// Number of registered materials.
    pub closed spec fn count(&self) -> nat {
        self.descriptors.len() as nat
    }

    pub closed spec fn wf(&self) -> bool {
        &&& self.descriptors.len() == self.shapes.len()
        &&& self.descriptors.len() <= MAX_MATERIALS
        &&& forall|i: int| 0 <= i < self.descriptors.len() ==> #[trigger] self.descriptors@[i].id.0 == i
        &&& forall|i: int|
            0 <= i < self.shapes.len() && #[trigger] self.shapes@[i] is Some ==> self.shapes@[i]->Some_0.ok()
        &&& forall|n: Seq<char>|
            #[trigger] name_entries(self.by_name).contains_key(n) <==> exists|i: int|
                0 <= i < self.descriptors.len() && #[trigger] self.descriptors@[i].name@ == n
        &&& forall|n: Seq<char>|
            #[trigger] name_entries(self.by_name).contains_key(n) ==> {
                let id = name_entries(self.by_name)[n].0 as int;
                &&& 0 <= id < self.descriptors.len()
                &&& self.descriptors@[id].name@ == n
                &&& forall|j: int| id < j < self.descriptors.len() ==> #[trigger] self.descriptors@[j].name@ != n
            }
    }

    /// An empty registry.
    pub fn new() -> (r: MaterialRegistry)
        ensures
            r.wf(),
            r.count() == 0,
            r.names() == Seq::<Seq<char>>::empty(),
    {
        let r = MaterialRegistry { descriptors: Vec::new(), shapes: Vec::new(), by_name: names_new() };
        assert(r.names() =~= Seq::<Seq<char>>::empty());
        r
    }

    /// Registers a material under `name` with an optional collision shape,
    /// and returns its id: the number of materials registered before it. A
    /// name registered again gets a new id; lookups by name then find the
    /// newest.
    pub fn register(&mut self, name: String, shape: Option<TileColliderDescriptor>) -> (r: MaterialId)
        requires
            old(self).wf(),
            old(self).count() < MAX_MATERIALS,
            match shape {
                Some(d) => d.ok(),
                None => true,
            },
        ensures
            final(self).wf(),
            r.0 == old(self).count(),
            final(self).count() == old(self).count() + 1,
            final(self).names().len() == final(self).count(),
            final(self).names() == old(self).names().push(name@),
            forall|i: int| 0 <= i < old(self).count() ==> #[trigger] final(self).shape_of(i) == old(self).shape_of(i),
            final(self).shape_of(r.0 as int) == shape_view(shape),
    {
        let id = MaterialId(self.descriptors.len() as u16);
        let ghost name_view = name@;
        let ghost e0 = name_entries(self.by_name);
        names_insert(&mut self.by_name, &name, id);
        self.descriptors.push(BaseMaterialDescriptor { id, name });
        self.shapes.push(shape);
        proof {
            assert(self.names() =~= old(self).names().push(name_view));
            assert forall|i: int| 0 <= i < old(self).count() implies #[trigger] self.shape_of(i) == old(self).shape_of(i) by {
                assert(self.shapes@[i] == old(self).shapes@[i]);
            }
            let n0 = old(self).descriptors.len() as int;
            assert(self.descriptors@[n0].name@ == name_view);
            assert forall|n: Seq<char>|
                #[trigger] name_entries(self.by_name).contains_key(n) <==> exists|i: int|
                    0 <= i < self.descriptors.len() && #[trigger] self.descriptors@[i].name@ == n by {
                if n != name_view && e0.contains_key(n) {
                    let i = choose|i: int| 0 <= i < n0 && #[trigger] old(self).descriptors@[i].name@ == n;
                    assert(self.descriptors@[i] == old(self).descriptors@[i]);
                }
                if n != name_view && exists|i: int| 0 <= i < self.descriptors.len() && #[trigger] self.descriptors@[i].name@ == n {
                    let i = choose|i: int| 0 <= i < self.descriptors.len() && #[trigger] self.descriptors@[i].name@ == n;
                    assert(i < n0);
                    assert(self.descriptors@[i] == old(self).descriptors@[i]);
                }
            }
            assert forall|n: Seq<char>|
                #[trigger] name_entries(self.by_name).contains_key(n) implies {
                    let id = name_entries(self.by_name)[n].0 as int;
                    &&& 0 <= id < self.descriptors.len()
                    &&& self.descriptors@[id].name@ == n
                    &&& forall|j: int| id < j < self.descriptors.len() ==> #[trigger] self.descriptors@[j].name@ != n
                } by {
                if n != name_view {
                    let id = e0[n].0 as int;
                    assert(self.descriptors@[id] == old(self).descriptors@[id]);
                    assert forall|j: int| id < j < self.descriptors.len() implies #[trigger] self.descriptors@[j].name@ != n by {
                        if j < n0 {
                            assert(self.descriptors@[j] == old(self).descriptors@[j]);
                        }
                    }
                }
            }
        }
        id
    }

    /// One name per registered material.
    pub proof fn lemma_names_len(&self)
        requires
            self.wf(),
        ensures
            self.names().len() == self.count(),
    {
    }

    /// The record of material `id`.
    pub fn lookup(&self, id: MaterialId) -> (r: &BaseMaterialDescriptor)
        requires
            self.wf(),
            id.0 < self.count(),
        ensures
            r.id == id,
            r.name@ == self.names()[id.0 as int],
    {
        let r = &self.descriptors[id.0 as usize];
        assert(self.descriptors@[id.0 as int].id.0 == id.0);
        r
    }

    /// The collision shape of material `id`, if it has one.
    pub fn shape(&self, id: MaterialId) -> (r: Option<&TileColliderDescriptor>)
        requires
            self.wf(),
            id.0 < self.count(),
        ensures
            match r {
                Some(d) => self.shape_of(id.0 as int) == Some(d@) && d.ok(),
                None => self.shape_of(id.0 as int) is None,
            },
    {
        self.shapes[id.0 as usize].as_ref()
    }

    /// The id most recently registered under `name`, if any.
    pub fn lookup_by_name(&self, name: &str) -> (r: Option<MaterialId>)
        requires
            self.wf(),
        ensures
            match r {
                Some(m) => m.0 < self.count() && self.names()[m.0 as int] == name@ && forall|j: int|
                    m.0 < j < self.count() ==> #[trigger] self.names()[j] != name@,
                None => forall|j: int| 0 <= j < self.count() ==> #[trigger] self.names()[j] != name@,
            },
    {
        let r = names_get(&self.by_name, name);
        proof {
            match r {
                Some(m) => {
                    assert(name_entries(self.by_name).contains_key(name@));
                    assert forall|j: int| m.0 < j < self.count() implies #[trigger] self.names()[j] != name@ by {
                        assert(self.descriptors@[j].name@ != name@);
                    }
                },
                None => {
                    assert forall|j: int| 0 <= j < self.count() implies #[trigger] self.names()[j] != name@ by {
                        if self.names()[j] == name@ {
                            assert(self.descriptors@[j].name@ == name@);
                        }
                    }
                },
            }
        }
        r
    }
}

/// Memoised per-material collision shapes, indexed by material id: an
/// entry is filled on first lookup, including for a material without a
/// shape, so that neither kind of lookup goes to the registry twice.
#[derive(Debug)]
pub struct MaterialCache {
    cache: Vec<Option<Option<TileColliderDescriptor>>>,
}

impl MaterialCache {
    /// Every filled entry agrees with the registry.
    pub closed spec fn agrees(&self, reg: &MaterialRegistry) -> bool {
        forall|i: int|
            0 <= i < self.cache.len() && #[trigger] self.cache@[i] is Some ==> i < reg.count()
                && shape_view(self.cache@[i]->Some_0) == reg.shape_of(i)
    }

    /// Entry `i` has been filled.
    pub closed spec fn holds(&self, i: int) -> bool {
        0 <= i < self.cache.len() && self.cache@[i] is Some
    }

    /// An empty cache.
    pub fn new() -> (r: MaterialCache)
        ensures
            forall|reg: &MaterialRegistry| r.agrees(reg),
            forall|i: int| !r.holds(i),
    {
        MaterialCache { cache: Vec::new() }
    }

    /// The collision shape of material `id`, from the cache when filled,
    /// else from the registry, memoising the answer either way.
    pub fn get(&mut self, reg: &MaterialRegistry, id: MaterialId) -> (r: Option<TileColliderDescriptor>)
        requires
            old(self).agrees(reg),
            reg.wf(),
            id.0 < reg.count(),
        ensures
            final(self).agrees(reg),
            final(self).holds(id.0 as int),
            forall|i: int| old(self).holds(i) ==> #[trigger] final(self).holds(i),
            shape_view(r) == reg.shape_of(id.0 as int),
            match r {
                Some(d) => d.ok(),
                None => true,
            },
    {
        let i = id.0 as usize;
        if i < self.cache.len() {
            match &self.cache[i] {
                Some(entry) => {
                    let r = duplicate_opt(entry);
                    proof {
                        reveal_shape_ok(reg, i as int);
                    }
                    return r;
                },
                None => {},
            }
        }
        let found = match reg.shape(id) {
            Some(d) => Some(d.duplicate()),
            None => None,
        };
        while self.cache.len() <= i
            invariant
                self.agrees(reg),
                i < reg.count(),
                self.cache.len() >= old(self).cache.len(),
                forall|j: int| old(self).holds(j) ==> #[trigger] self.holds(j),
            decreases i + 1 - self.cache.len(),
        {
            let ghost before = self.cache@;
            let ghost prev = *self;
            self.cache.push(None);
            proof {
                assert forall|j: int| old(self).holds(j) implies #[trigger] self.holds(j) by {
                    assert(prev.holds(j));
                    assert(j < before.len());
                    assert(self.cache@[j] == before[j]);
                }
                assert forall|j: int| 0 <= j < self.cache.len() && #[trigger] self.cache@[j] is Some implies j < reg.count()
                    && shape_view(self.cache@[j]->Some_0) == reg.shape_of(j) by {
                    if j < before.len() {
                        assert(self.cache@[j] == before[j]);
                    }
                }
            }
        }
        let ghost before = self.cache@;
        let ghost prev = *self;
        self.cache[i] = Some(duplicate_opt(&found));
        proof {
            assert forall|j: int| old(self).holds(j) implies #[trigger] self.holds(j) by {
                assert(prev.holds(j));
                if j != i {
                    assert(j < before.len());
                    assert(self.cache@[j] == before[j]);
                }
            }
            assert forall|j: int| 0 <= j < self.cache.len() && #[trigger] self.cache@[j] is Some implies j < reg.count()
                && shape_view(self.cache@[j]->Some_0) == reg.shape_of(j) by {
                if j != i {
                    assert(self.cache@[j] == before[j]);
                }
            }
            reveal_shape_ok(reg, i as int);
        }
        found
    }
}

/// A descriptor whose boxes match a registered shape lies within the tile.
proof fn reveal_shape_ok(reg: &MaterialRegistry, i: int)
    requires
        reg.wf(),
        0 <= i < reg.count(),
    ensures
        match reg.shape_of(i) {
            Some(v) => forall|k: int| 0 <= k < v.len() ==> shape_box_ok(#[trigger] v[k]),
            None => true,
        },
{
    if reg.shapes@[i] is Some {
        assert(reg.shapes@[i]->Some_0.ok());
    }
}

/// A cache that agrees with a registry still agrees after more materials
/// are registered, since ids and shapes never change.
pub proof fn lemma_cache_survives_register(c: &MaterialCache, r0: &MaterialRegistry, r1: &MaterialRegistry)
    requires
        c.agrees(r0),
        r0.count() <= r1.count(),
        forall|i: int| 0 <= i < r0.count() ==> #[trigger] r1.shape_of(i) == r0.shape_of(i),
    ensures
        c.agrees(r1),
{
}

} // verus!
