use tilespace::colliders::WorldColliders;
use tilespace::config::{TileFace, TileLayerConfig};
use tilespace::geometry::{Aabb, Axis2, IVec2, Vec2};
use tilespace::listen::{ColliderEvent, ColliderListens};
use tilespace::kinematic::{build, resolve_axis, AnyCollision, CollisionFilter, TOLERANCE};
use tilespace::material::{MaterialCache, MaterialId, MaterialRegistry, TileColliderDescriptor};
use tilespace::notify::Deferred;
use tilespace::world::{TileWorld, WorldCreatedChunk};

/// One world unit in actor units.
const UNIT: i64 = 100;

fn boxed(x0: i64, y0: i64, x1: i64, y1: i64) -> Aabb {
    Aabb::new(Vec2::new(x0, y0), Vec2::new(x1, y1))
}

fn full_tile() -> Option<TileColliderDescriptor> {
    Some(TileColliderDescriptor::new(vec![boxed(0, 0, 100, 100)]))
}

#[test]
fn set_then_get_tile_in_one_chunk() {
    let mut api = build(TileLayerConfig::from_size(50 * UNIT));
    let grass = api.register_material(String::from("grass"), full_tile());
    api.set_tile(IVec2::new(0, 0), grass);
    assert_eq!(api.get_tile(IVec2::new(0, 0)), grass);
    assert_eq!(api.get_tile(IVec2::new(1, 0)), MaterialId(0));
    assert_eq!(api.get_tile(IVec2::new(-1, 0)), MaterialId(0));
    assert_eq!(grass, MaterialId(1));
}

/// Solid region x in [20, 70] world units, y in [-50, 50], made of tile parts.
fn wall_world() -> tilespace::kinematic::KinematicApi {
    let mut api = build(TileLayerConfig::from_size(50 * UNIT));
    let right_part = api.register_material(
        String::from("wall_right"),
        Some(TileColliderDescriptor::new(vec![boxed(40, 0, 100, 100)])),
    );
    let left_part = api.register_material(
        String::from("wall_left"),
        Some(TileColliderDescriptor::new(vec![boxed(0, 0, 40, 100)])),
    );
    for y in [-1, 0] {
        api.set_tile(IVec2::new(0, y), right_part);
        api.set_tile(IVec2::new(1, y), left_part);
    }
    api
}

#[test]
fn touching_mover_is_clamped_at_the_wall() {
    let mut api = wall_world();
    let mover = Aabb::new_centered(Vec2::new(0, 0), Vec2::new(40 * UNIT, 40 * UNIT));
    let moved = api.move_by(mover, Vec2::new(100 * UNIT, 0), CollisionFilter::TilesOnly);
    assert_eq!(moved, Vec2::new(0, 0));
    assert_eq!(mover.max.x + moved.x, 20 * UNIT);
    assert_ne!(mover.max.x + moved.x, 120 * UNIT);
}

#[test]
fn approaching_mover_stops_a_tolerance_short_of_the_wall() {
    let mut api = wall_world();
    let mover = Aabb::new_centered(Vec2::new(-50 * UNIT, 0), Vec2::new(40 * UNIT, 40 * UNIT));
    let moved = api.move_by(mover, Vec2::new(100 * UNIT, 0), CollisionFilter::TilesOnly);
    assert_eq!(moved, Vec2::new(50 * UNIT - TOLERANCE, 0));
    assert_eq!(mover.max.x + moved.x, 20 * UNIT - TOLERANCE);
}

#[test]
fn moving_left_into_the_wall_stops_short_of_its_far_side() {
    let mut api = wall_world();
    let mover = Aabb::new_centered(Vec2::new(100 * UNIT, 0), Vec2::new(40 * UNIT, 40 * UNIT));
    let moved = api.move_by(mover, Vec2::new(-100 * UNIT, 0), CollisionFilter::All);
    assert_eq!(moved.x, -(10 * UNIT - TOLERANCE));
    assert!(mover.min.x + moved.x >= 70 * UNIT);
}

#[test]
fn free_move_goes_the_full_distance() {
    let mut api = wall_world();
    let mover = Aabb::new_centered(Vec2::new(-200 * UNIT, 0), Vec2::new(40 * UNIT, 40 * UNIT));
    let moved = api.move_by(mover, Vec2::new(-30 * UNIT, 12 * UNIT), CollisionFilter::All);
    assert_eq!(moved, Vec2::new(-30 * UNIT, 12 * UNIT));
}

#[test]
fn colliders_only_filter_ignores_tiles() {
    let mut api = wall_world();
    let mover = Aabb::new_centered(Vec2::new(-50 * UNIT, 0), Vec2::new(40 * UNIT, 40 * UNIT));
    let moved = api.move_by(mover, Vec2::new(100 * UNIT, 0), CollisionFilter::CollidersOnly);
    assert_eq!(moved, Vec2::new(100 * UNIT, 0));
}

#[test]
fn diagonal_into_corner_slides_along_open_axis() {
    let mut api = wall_world();
    // Touching the wall on its left side, moving right and down.
    let mover = Aabb::new(Vec2::new(0, -10 * UNIT), Vec2::new(20 * UNIT, 10 * UNIT));
    let moved = api.move_by(mover, Vec2::new(30 * UNIT, 15 * UNIT), CollisionFilter::TilesOnly);
    assert_eq!(moved.x, 0);
    assert_eq!(moved.y, 15 * UNIT);
}

#[test]
fn clip_mask_closes_only_the_blocked_axis() {
    let mut api = wall_world();
    let mover = Aabb::new(Vec2::new(0, -10 * UNIT), Vec2::new(20 * UNIT, 10 * UNIT));
    let mask = api.get_clip_mask(mover, Vec2::new(5 * UNIT, 5 * UNIT), CollisionFilter::TilesOnly);
    assert_eq!(mask, (false, true));
    let away = api.get_clip_mask(mover, Vec2::new(-5 * UNIT, 5 * UNIT), CollisionFilter::TilesOnly);
    assert_eq!(away, (true, true));
}

#[test]
fn iter_colliders_lists_tile_parts_then_colliders() {
    let mut api = wall_world();
    let h = api.attach_collider(boxed(-10 * UNIT, -5 * UNIT, -5 * UNIT, 5 * UNIT));
    let found = api.iter_colliders_in(boxed(-20 * UNIT, -1 * UNIT, 30 * UNIT, 1 * UNIT));
    assert_eq!(found.len(), 3);
    assert!(matches!(found[0], AnyCollision::Tile(t, _, _) if t == IVec2::new(0, -1)));
    assert!(matches!(found[1], AnyCollision::Tile(t, _, b) if t == IVec2::new(0, 0) && b == boxed(20 * UNIT, 0, 50 * UNIT, 50 * UNIT)));
    assert_eq!(found[2], AnyCollision::Collider(h, boxed(-10 * UNIT, -5 * UNIT, -5 * UNIT, 5 * UNIT)));
    assert_eq!(found[2].aabb(), boxed(-10 * UNIT, -5 * UNIT, -5 * UNIT, 5 * UNIT));
    assert!(api.has_colliders_in(boxed(-20 * UNIT, -1 * UNIT, 30 * UNIT, 1 * UNIT), CollisionFilter::CollidersOnly));
    assert!(!api.has_colliders_in(boxed(100 * UNIT, 100 * UNIT, 110 * UNIT, 110 * UNIT), CollisionFilter::All));
}

#[test]
fn step_ray_tiles_visits_each_tile_then_destination() {
    let c = TileLayerConfig::from_size(50 * UNIT);
    let tiles = c.step_ray_tiles(Vec2::new(0, 0), Vec2::new(125 * UNIT, 0));
    assert_eq!(
        tiles,
        vec![IVec2::new(0, 0), IVec2::new(1, 0), IVec2::new(2, 0), IVec2::new(2, 0)]
    );
}

#[test]
fn step_ray_tiles_within_one_tile_visits_it_twice() {
    let c = TileLayerConfig::from_size(50 * UNIT);
    let tiles = c.step_ray_tiles(Vec2::new(10, 10), Vec2::new(20, 30));
    assert_eq!(tiles, vec![IVec2::new(0, 0), IVec2::new(0, 0)]);
}

#[test]
fn step_ray_tiles_goes_backwards_across_zero() {
    let c = TileLayerConfig::from_size(10);
    let tiles = c.step_ray_tiles(Vec2::new(5, 5), Vec2::new(-15, 5));
    assert_eq!(
        tiles,
        vec![IVec2::new(0, 0), IVec2::new(-1, 0), IVec2::new(-2, 0), IVec2::new(-2, 0)]
    );
}

#[test]
fn step_ray_tiles_corner_crossing_takes_x_first() {
    let c = TileLayerConfig::from_size(10);
    let tiles = c.step_ray_tiles(Vec2::new(5, 5), Vec2::new(15, 15));
    assert_eq!(
        tiles,
        vec![IVec2::new(0, 0), IVec2::new(1, 0), IVec2::new(1, 1), IVec2::new(1, 1)]
    );
}

#[test]
fn step_ray_tiles_shallow_diagonal_orders_by_distance() {
    let c = TileLayerConfig::from_size(10);
    // Reaches x = 10 at a fifth of the way, y = 10 at the end.
    let tiles = c.step_ray_tiles(Vec2::new(8, 0), Vec2::new(18, 10));
    assert_eq!(
        tiles,
        vec![IVec2::new(0, 0), IVec2::new(1, 0), IVec2::new(1, 1), IVec2::new(1, 1)]
    );
    // Reaches y = 10 first, at a fifth of the way.
    let tiles = c.step_ray_tiles(Vec2::new(0, 8), Vec2::new(10, 18));
    assert_eq!(
        tiles,
        vec![IVec2::new(0, 0), IVec2::new(0, 1), IVec2::new(1, 1), IVec2::new(1, 1)]
    );
}

#[test]
fn step_ray_reports_crossings_in_order() {
    let c = TileLayerConfig::from_size(10);
    let hits = c.step_ray(Vec2::new(8, 2), Vec2::new(5, 10));
    assert_eq!(hits.len(), 2);
    let (first, second) = (hits.get(0), hits.get(1));
    assert_eq!(first.face, TileFace::Right);
    assert_eq!(first.entered_tile, IVec2::new(1, 0));
    assert_eq!(first.boundary, 10);
    assert_eq!((first.dist_num, first.dist_den), (2, 5));
    assert_eq!(second.face, TileFace::Bottom);
    assert_eq!(second.entered_tile, IVec2::new(1, 1));
    assert_eq!((second.dist_num, second.dist_den), (8, 10));
    assert_eq!(c.step_ray(Vec2::new(1, 1), Vec2::new(3, 3)).len(), 0);
    let back = c.step_ray(Vec2::new(0, 5), Vec2::new(-1, 0));
    assert_eq!(back.len(), 1);
    assert_eq!(back.get(0).face, TileFace::Left);
    assert_eq!(back.get(0).entered_tile, IVec2::new(-1, 0));
    assert_eq!(back.get(0).dist_num, 0);
}

#[test]
fn actor_to_tile_floors_negative_coordinates() {
    let c = TileLayerConfig::from_size(50);
    assert_eq!(c.actor_to_tile(Vec2::new(-1, 0)), IVec2::new(-1, 0));
    assert_eq!(c.actor_to_tile(Vec2::new(-50, 49)), IVec2::new(-1, 0));
    assert_eq!(c.actor_to_tile(Vec2::new(-51, 50)), IVec2::new(-2, 1));
    assert_eq!(c.actor_to_tile_axis(Axis2::Y, 149), 2);
}

#[test]
fn tile_rect_contains_the_position_it_came_from() {
    let c = TileLayerConfig::from_size(50);
    for p in [Vec2::new(0, 0), Vec2::new(-1, -1), Vec2::new(-50, 99), Vec2::new(1234, -5678)] {
        let rect = c.tile_to_actor_rect(c.actor_to_tile(p));
        assert!(rect.contains(p));
    }
    assert_eq!(c.tile_to_actor_rect(IVec2::new(-2, 3)), boxed(-100, 150, -50, 200));
}

#[test]
fn decompose_then_compose_gives_the_tile_back() {
    for (t, chunk, local) in [
        (IVec2::new(0, 0), IVec2::new(0, 0), IVec2::new(0, 0)),
        (IVec2::new(-1, 16), IVec2::new(-1, 1), IVec2::new(15, 0)),
        (IVec2::new(-16, -17), IVec2::new(-1, -2), IVec2::new(0, 15)),
        (IVec2::new(35, 5), IVec2::new(2, 0), IVec2::new(3, 5)),
    ] {
        let (c, l) = TileLayerConfig::decompose_world_pos(t);
        assert_eq!((c, l), (chunk, local));
        assert_eq!(IVec2::new(c.x * 16 + l.x, c.y * 16 + l.y), t);
    }
    assert_eq!(TileLayerConfig::to_tile_index(IVec2::new(3, 2)), 35);
}

#[test]
fn chunk_or_create_twice_creates_once() {
    let mut w = TileWorld::new(TileLayerConfig::from_size(50));
    let a = w.chunk_or_create(IVec2::new(2, -3));
    let b = w.chunk_or_create(IVec2::new(2, -3));
    assert_eq!(a, b);
    let mut events = Vec::new();
    w.drain_created(&mut events);
    assert_eq!(events, vec![WorldCreatedChunk { chunk: a, pos: IVec2::new(2, -3) }]);
    assert_eq!(w.chunk(IVec2::new(2, -3)), Some(a));
    assert_eq!(w.chunk(IVec2::new(2, -2)), None);
}

#[test]
fn reading_a_tile_never_creates_a_chunk() {
    let mut w = TileWorld::new(TileLayerConfig::from_size(50));
    assert_eq!(w.tile(IVec2::new(100, 100)), MaterialId(0));
    let mut events = Vec::new();
    w.drain_created(&mut events);
    assert!(events.is_empty());
    w.set_tile(IVec2::new(100, 100), MaterialId(3));
    w.set_tile(IVec2::new(101, 100), MaterialId(4));
    w.drain_created(&mut events);
    assert_eq!(events.len(), 1);
    assert_eq!(events[0].pos, IVec2::new(6, 6));
    assert_eq!(w.tile(IVec2::new(100, 100)), MaterialId(3));
    assert_eq!(w.tile(IVec2::new(101, 100)), MaterialId(4));
    assert_eq!(w.tile(IVec2::new(102, 100)), MaterialId(0));
}

#[test]
fn neighbours_link_both_ways_and_unlink_on_removal() {
    let mut w = TileWorld::new(TileLayerConfig::from_size(50));
    let a = w.chunk_or_create(IVec2::new(0, 0));
    let b = w.chunk_or_create(IVec2::new(1, 0));
    let c = w.chunk_or_create(IVec2::new(0, 1));
    let far = w.chunk_or_create(IVec2::new(5, 5));
    let ca = w.get(a).unwrap();
    assert_eq!(ca.neighbor(TileFace::Right), Some(b));
    assert_eq!(ca.neighbor(TileFace::Bottom), Some(c));
    assert_eq!(ca.neighbor(TileFace::Left), None);
    assert_eq!(w.get(b).unwrap().neighbor(TileFace::Left), Some(a));
    assert_eq!(w.get(c).unwrap().neighbor(TileFace::Top), Some(a));
    assert_eq!(w.get(far).unwrap().neighbor(TileFace::Left), None);

    let removed = w.remove_chunk(a).unwrap();
    assert!(!removed.in_world());
    assert_eq!(removed.pos(), IVec2::new(0, 0));
    assert!(w.get(a).is_none());
    assert_eq!(w.chunk(IVec2::new(0, 0)), None);
    assert_eq!(w.get(b).unwrap().neighbor(TileFace::Left), None);
    assert_eq!(w.get(c).unwrap().neighbor(TileFace::Top), None);
    assert!(w.remove_chunk(a).is_none());

    let again = w.chunk_or_create(IVec2::new(0, 0));
    assert_ne!(again, a);
    assert_eq!(w.get(b).unwrap().neighbor(TileFace::Left), Some(again));
}

#[test]
fn collider_index_tracks_moves_and_removals() {
    let mut w = TileWorld::new(TileLayerConfig::from_size(10));
    let mut cols = WorldColliders::new();
    let a = cols.attach(&mut w, boxed(0, 0, 4, 4));
    let b = cols.attach(&mut w, boxed(2, 2, 6, 6));
    let c = cols.attach(&mut w, boxed(300, 300, 304, 304));
    assert_eq!((a, b, c), (0, 1, 2));

    let mut hits = cols.collisions(&w, boxed(1, 1, 3, 3));
    hits.sort_by_key(|e| e.0);
    assert_eq!(hits, vec![(a, boxed(0, 0, 4, 4)), (b, boxed(2, 2, 6, 6))]);

    // Same chunk: overwritten in place.
    cols.update_box(&mut w, a, boxed(5, 5, 9, 9));
    assert_eq!(cols.collider_box(a), Some(boxed(5, 5, 9, 9)));
    assert_eq!(cols.collisions(&w, boxed(0, 0, 2, 2)), vec![]);

    // Another chunk: moved across.
    cols.update_box(&mut w, a, boxed(290, 290, 296, 296));
    let mut near = cols.collisions(&w, boxed(295, 295, 301, 301));
    near.sort_by_key(|e| e.0);
    assert_eq!(near, vec![(a, boxed(290, 290, 296, 296)), (c, boxed(300, 300, 304, 304))]);

    cols.detach(&w, c);
    assert_eq!(cols.collider_box(c), None);
    assert_eq!(cols.collisions(&w, boxed(295, 295, 301, 301)), vec![(a, boxed(290, 290, 296, 296))]);
    assert_eq!(cols.collisions(&w, boxed(1, 1, 3, 3)), vec![(b, boxed(2, 2, 6, 6))]);
    assert_eq!(cols.collider_box(b), Some(boxed(2, 2, 6, 6)));
}

#[test]
fn swap_remove_keeps_the_moved_entry_reachable() {
    let mut w = TileWorld::new(TileLayerConfig::from_size(100));
    let mut cols = WorldColliders::new();
    let ids: Vec<usize> = (0..4).map(|i| cols.attach(&mut w, boxed(i * 10, 0, i * 10 + 5, 5))).collect();
    cols.detach(&w, ids[0]);
    // The last entry took the first slot; moving it must still work.
    cols.update_box(&mut w, ids[3], boxed(31, 1, 36, 6));
    cols.detach(&w, ids[1]);
    let mut all = cols.collisions(&w, boxed(0, 0, 100, 100));
    all.sort_by_key(|e| e.0);
    assert_eq!(all, vec![(ids[2], boxed(20, 0, 25, 5)), (ids[3], boxed(31, 1, 36, 6))]);
}

#[test]
fn touching_boxes_do_not_collide() {
    let mut w = TileWorld::new(TileLayerConfig::from_size(10));
    let mut cols = WorldColliders::new();
    cols.attach(&mut w, boxed(0, 0, 5, 5));
    assert!(cols.collisions(&w, boxed(5, 0, 8, 5)).is_empty());
    assert_eq!(cols.collisions(&w, boxed(4, 0, 8, 5)).len(), 1);
}

#[test]
fn registry_assigns_ids_in_order_and_finds_newest_name() {
    let mut reg = MaterialRegistry::new();
    let a = reg.register(String::from("stone"), None);
    let b = reg.register(String::from("dirt"), full_tile());
    let c = reg.register(String::from("stone"), None);
    assert_eq!((a, b, c), (MaterialId(0), MaterialId(1), MaterialId(2)));
    assert_eq!(reg.lookup_by_name("stone"), Some(MaterialId(2)));
    assert_eq!(reg.lookup_by_name("dirt"), Some(MaterialId(1)));
    assert_eq!(reg.lookup_by_name("lava"), None);
    assert_eq!(reg.lookup(b).name, "dirt");
    assert_eq!(reg.lookup(b).id, b);
    assert!(reg.shape(a).is_none());
    assert_eq!(reg.shape(b).unwrap().aabbs.to_vec(), vec![boxed(0, 0, 100, 100)]);
}

#[test]
fn cache_returns_registry_shapes() {
    let mut reg = MaterialRegistry::new();
    let a = reg.register(String::from("air"), None);
    let b = reg.register(String::from("half"), Some(TileColliderDescriptor::new(vec![boxed(0, 50, 100, 100)])));
    let mut cache = MaterialCache::new();
    assert!(cache.get(&reg, a).is_none());
    assert_eq!(cache.get(&reg, b).unwrap().aabbs.to_vec(), vec![boxed(0, 50, 100, 100)]);
    assert_eq!(cache.get(&reg, b).unwrap().aabbs.to_vec(), vec![boxed(0, 50, 100, 100)]);
    assert!(cache.get(&reg, a).is_none());
}

#[test]
fn build_registers_air_first() {
    let api = build(TileLayerConfig::from_size(50));
    assert_eq!(api.lookup_material_by_name("air"), Some(MaterialId(0)));
    assert!(MaterialId::air().is_air());
    assert!(!MaterialId(1).is_air());
}

#[test]
fn deferred_hands_events_over_in_order() {
    let mut q: Deferred<u32> = Deferred::new();
    q.queue_run(1);
    q.queue_run(2);
    assert_eq!(q.len(), 2);
    let mut got = vec![0];
    q.run_now(&mut got);
    assert_eq!(got, vec![0, 1, 2]);
    assert_eq!(q.len(), 0);
    q.run_now(&mut got);
    assert_eq!(got, vec![0, 1, 2]);
}

#[test]
fn resolve_axis_takes_the_nearest_blocker() {
    let m = boxed(0, 0, 10, 10);
    let blockers = vec![boxed(30, 0, 40, 10), boxed(15, 0, 20, 10), boxed(100, 0, 110, 10)];
    assert_eq!(resolve_axis(m, Axis2::X, 50, &blockers), 5 - TOLERANCE);
    assert_eq!(resolve_axis(m, Axis2::X, 3, &blockers), 3);
    assert_eq!(resolve_axis(m, Axis2::X, 50, &vec![]), 50);
    let behind = vec![boxed(-20, 0, -4, 10)];
    assert_eq!(resolve_axis(m, Axis2::X, -50, &behind), -(4 - TOLERANCE));
    let touching = vec![boxed(10, 0, 20, 10)];
    assert_eq!(resolve_axis(m, Axis2::X, 7, &touching), 0);
}

#[test]
fn world_events_follow_tile_writes_through_the_api() {
    let mut api = build(TileLayerConfig::from_size(10));
    let stone = api.register_material(String::from("stone"), full_tile());
    api.set_tile(IVec2::new(0, 0), stone);
    api.set_tile(IVec2::new(-1, 0), stone);
    api.set_tile(IVec2::new(3, 3), stone);
    let mut events = Vec::new();
    api.drain_created(&mut events);
    let positions: Vec<IVec2> = events.iter().map(|e| e.pos).collect();
    assert_eq!(positions, vec![IVec2::new(0, 0), IVec2::new(-1, 0)]);
    let h = api.attach_collider(boxed(400, 400, 410, 410));
    api.drain_created(&mut events);
    assert_eq!(events.last().unwrap().pos, IVec2::new(2, 2));
    api.update_collider_box(h, boxed(0, 0, 10, 10));
    assert_eq!(api.query_region(boxed(5, 5, 6, 6)), vec![(h, boxed(0, 0, 10, 10))]);
    api.detach_collider(h);
    assert!(api.query_region(boxed(5, 5, 6, 6)).is_empty());
}

#[test]
fn dig_path_clears_every_tile_on_the_walk() {
    let mut api = build(TileLayerConfig::from_size(10));
    let stone = api.register_material(String::from("stone"), full_tile());
    for x in -1..6 {
        api.set_tile(IVec2::new(x, 0), stone);
    }
    api.dig_path(Vec2::new(5, 5), Vec2::new(35, 5));
    for x in 0..4 {
        assert_eq!(api.get_tile(IVec2::new(x, 0)), MaterialId(0));
    }
    assert_eq!(api.get_tile(IVec2::new(-1, 0)), stone);
    assert_eq!(api.get_tile(IVec2::new(4, 0)), stone);
}

#[test]
fn place_path_fills_free_air_tiles_only() {
    let mut api = build(TileLayerConfig::from_size(10));
    let grass = api.register_material(String::from("grass"), full_tile());
    let stone = api.register_material(String::from("stone"), full_tile());
    api.set_tile(IVec2::new(1, 0), grass);
    api.attach_collider(boxed(22, 2, 26, 6));
    // Touches tile (3, 0) only on its edge, not its inner area.
    api.attach_collider(boxed(40, 0, 45, 10));
    api.place_path(Vec2::new(5, 5), Vec2::new(35, 5), stone);
    assert_eq!(api.get_tile(IVec2::new(0, 0)), stone);
    assert_eq!(api.get_tile(IVec2::new(1, 0)), grass);
    assert_eq!(api.get_tile(IVec2::new(2, 0)), MaterialId(0));
    assert_eq!(api.get_tile(IVec2::new(3, 0)), stone);
    assert_eq!(api.get_tile(IVec2::new(4, 0)), MaterialId(0));
}

#[test]
fn listener_reports_enters_then_exits() {
    let mut w = TileWorld::new(TileLayerConfig::from_size(10));
    let mut cols = WorldColliders::new();
    let me = cols.attach(&mut w, boxed(0, 0, 10, 10));
    let a = cols.attach(&mut w, boxed(5, 5, 8, 8));
    let b = cols.attach(&mut w, boxed(50, 50, 55, 55));
    let mut listens = ColliderListens::new();

    let found = cols.collisions(&w, boxed(0, 0, 10, 10));
    let events = listens.update(me, &found);
    assert_eq!(events, vec![ColliderEvent { listener: me, other: a, entered: true }]);
    assert!(listens.overlaps(a));
    assert!(!listens.overlaps(me));

    // Nothing changed: no events.
    let found = cols.collisions(&w, boxed(0, 0, 10, 10));
    assert!(listens.update(me, &found).is_empty());

    cols.update_box(&mut w, b, boxed(2, 2, 4, 4));
    cols.update_box(&mut w, a, boxed(70, 70, 75, 75));
    let found = cols.collisions(&w, boxed(0, 0, 10, 10));
    let events = listens.update(me, &found);
    assert_eq!(
        events,
        vec![
            ColliderEvent { listener: me, other: b, entered: true },
            ColliderEvent { listener: me, other: a, entered: false },
        ]
    );
    assert!(listens.overlaps(b));
    assert!(!listens.overlaps(a));
}

#[test]
fn step_mover_moves_then_stops_blocked_velocity() {
    let mut api = wall_world();
    let (pos, vel) = api.step_mover(
        Vec2::new(-50 * UNIT, 0),
        Vec2::new(100 * UNIT, 0),
        40 * UNIT,
        CollisionFilter::TilesOnly,
    );
    assert_eq!(pos, Vec2::new(-50 * UNIT + 50 * UNIT - TOLERANCE, 0));
    assert_eq!(vel, Vec2::new(0, 0));
    let (pos, vel) = api.step_mover(
        Vec2::new(-200 * UNIT, 0),
        Vec2::new(-3 * UNIT, 2 * UNIT),
        40 * UNIT,
        CollisionFilter::TilesOnly,
    );
    assert_eq!(pos, Vec2::new(-203 * UNIT, 2 * UNIT));
    assert_eq!(vel, Vec2::new(-3 * UNIT, 2 * UNIT));
}

#[test]
fn removing_a_chunk_clears_only_its_tiles() {
    let mut w = TileWorld::new(TileLayerConfig::from_size(10));
    w.set_tile(IVec2::new(3, 3), MaterialId(2));
    w.set_tile(IVec2::new(20, 3), MaterialId(5));
    let id = w.chunk(IVec2::new(0, 0)).unwrap();
    w.remove_chunk(id);
    assert_eq!(w.tile(IVec2::new(3, 3)), MaterialId(0));
    assert_eq!(w.tile(IVec2::new(20, 3)), MaterialId(5));
}

#[test]
fn place_path_with_unit_tiles_ignores_colliders() {
    let mut api = build(TileLayerConfig::from_size(1));
    let stone = api.register_material(String::from("stone"), full_tile());
    api.attach_collider(boxed(0, 0, 3, 1));
    api.place_path(Vec2::new(0, 0), Vec2::new(2, 0), stone);
    for x in 0..3 {
        assert_eq!(api.get_tile(IVec2::new(x, 0)), stone);
    }
}

#[test]
fn re_registering_a_name_moves_lookup_to_the_new_id() {
    let mut api = build(TileLayerConfig::from_size(10));
    let a = api.register_material(String::from("sand"), None);
    assert_eq!(api.lookup_material_by_name("sand"), Some(a));
    let b = api.register_material(String::from("sand"), full_tile());
    assert_eq!(b, MaterialId(a.0 + 1));
    assert_eq!(api.lookup_material_by_name("sand"), Some(b));
    assert_eq!(api.registry().lookup(a).id, a);
}
