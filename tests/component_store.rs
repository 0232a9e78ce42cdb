use gunship::bounding_volume::{bvh_update, BoundVolume, BoundingVolumeManager, Entity};
use gunship::geometry::{BoxShape, CachedCollider, ColliderError, Point, Sphere, AABB, COORD_LIMIT, UNIT};

fn sphere(x: i64, y: i64, z: i64, radius: i64) -> CachedCollider {
    CachedCollider::Sphere(Sphere { center: Point::new(x, y, z), radius })
}

fn volume(entity: u64, x: i64, radius: i64) -> BoundVolume {
    let collider = sphere(x, 0, 0, radius);
    BoundVolume {
        entity: Entity(entity),
        aabb: AABB::from_collider(&collider).unwrap(),
        collider,
    }
}

fn assert_consistent(store: &BoundingVolumeManager) {
    let entities = store.entities();
    let components = store.components();
    assert_eq!(entities.len(), components.len());
    for (i, entity) in entities.iter().enumerate() {
        assert_eq!(store.get(*entity), Some(&components[i]));
    }
}

#[test]
fn assign_then_get_returns_component() {
    let mut store = BoundingVolumeManager::new();
    let v = volume(7, 0, UNIT);
    let stored = store.assign(Entity(7), v);
    assert_eq!(*stored, v);
    assert_eq!(store.get(Entity(7)), Some(&v));
    assert_eq!(store.get(Entity(8)), None);
    assert_eq!(store.entities(), &vec![Entity(7)]);
    assert_eq!(store.components(), &vec![v]);
}

#[test]
fn get_mut_updates_in_place() {
    let mut store = BoundingVolumeManager::new();
    store.assign(Entity(1), volume(1, 0, UNIT));
    store.assign(Entity(2), volume(2, 5 * UNIT, UNIT));
    let replacement = volume(2, 9 * UNIT, UNIT);
    *store.get_mut(Entity(2)).unwrap() = replacement;
    assert_eq!(store.get(Entity(2)), Some(&replacement));
    assert_eq!(store.entities(), &vec![Entity(1), Entity(2)]);
    assert!(store.get_mut(Entity(3)).is_none());
}

#[test]
fn index_stays_consistent_over_assign_and_flush() {
    let mut store = BoundingVolumeManager::new();
    for id in 0..6u64 {
        store.assign(Entity(id), volume(id, id as i64 * UNIT, UNIT));
        assert_consistent(&store);
    }
    store.destroy_all(Entity(0));
    store.destroy_all(Entity(3));
    store.destroy_marked();
    assert_consistent(&store);
    store.assign(Entity(10), volume(10, 0, UNIT));
    store.destroy_all(Entity(5));
    store.destroy_marked();
    assert_consistent(&store);
    assert_eq!(store.entities().len(), 4);
}

#[test]
fn destroy_marked_removes_exactly_the_marked() {
    let mut store = BoundingVolumeManager::new();
    for id in 1..=4u64 {
        store.assign(Entity(id), volume(id, id as i64 * UNIT, UNIT));
    }
    store.destroy_all(Entity(2));
    store.destroy_all(Entity(4));
    // Marking alone removes nothing.
    assert!(store.get(Entity(2)).is_some());
    assert_eq!(store.entities().len(), 4);
    store.destroy_marked();
    assert_eq!(store.get(Entity(2)), None);
    assert_eq!(store.get(Entity(4)), None);
    assert_eq!(store.get(Entity(1)), Some(&volume(1, UNIT, UNIT)));
    assert_eq!(store.get(Entity(3)), Some(&volume(3, 3 * UNIT, UNIT)));
    assert_eq!(store.entities().len(), 2);
    // A second flush with nothing marked changes nothing.
    store.destroy_marked();
    assert_eq!(store.entities().len(), 2);
}

#[test]
fn destroy_all_on_absent_entity_is_a_no_op() {
    let mut store = BoundingVolumeManager::new();
    store.assign(Entity(1), volume(1, 0, UNIT));
    store.destroy_all(Entity(9));
    store.destroy_marked();
    assert_eq!(store.entities(), &vec![Entity(1)]);
}

#[test]
fn destroy_all_twice_equals_once() {
    let mut once = BoundingVolumeManager::new();
    let mut twice = BoundingVolumeManager::new();
    for id in 1..=3u64 {
        once.assign(Entity(id), volume(id, id as i64 * UNIT, UNIT));
        twice.assign(Entity(id), volume(id, id as i64 * UNIT, UNIT));
    }
    once.destroy_all(Entity(1));
    twice.destroy_all(Entity(1));
    twice.destroy_all(Entity(1));
    once.destroy_marked();
    twice.destroy_marked();
    assert_eq!(once.entities(), twice.entities());
    assert_eq!(once.components(), twice.components());
    assert_eq!(twice.get(Entity(1)), None);
}

#[test]
fn destroy_immediate_swaps_last_into_place() {
    let mut store = BoundingVolumeManager::new();
    for id in 1..=3u64 {
        store.assign(Entity(id), volume(id, id as i64 * UNIT, UNIT));
    }
    let removed = store.destroy_immediate(Entity(1));
    assert_eq!(removed, volume(1, UNIT, UNIT));
    assert_eq!(store.entities(), &vec![Entity(3), Entity(2)]);
    assert_consistent(&store);
    let removed = store.destroy_immediate(Entity(2));
    assert_eq!(removed, volume(2, 2 * UNIT, UNIT));
    assert_eq!(store.entities(), &vec![Entity(3)]);
    assert_consistent(&store);
}

#[test]
fn iter_pairs_components_with_entities() {
    let mut store = BoundingVolumeManager::new();
    store.assign(Entity(4), volume(4, 0, UNIT));
    store.assign(Entity(5), volume(5, UNIT, UNIT));
    let pairs = store.iter();
    assert_eq!(pairs, vec![(volume(4, 0, UNIT), Entity(4)), (volume(5, UNIT, UNIT), Entity(5))]);
}

#[test]
fn bvh_update_assigns_then_updates_in_place() {
    let mut store = BoundingVolumeManager::new();
    let frame1 = vec![(Entity(1), sphere(0, 0, 0, UNIT)), (Entity(2), sphere(3 * UNIT, 0, 0, UNIT))];
    assert_eq!(bvh_update(&mut store, &frame1), Ok(()));
    assert_eq!(store.entities(), &vec![Entity(1), Entity(2)]);
    let frame2 = vec![(Entity(2), sphere(0, 4 * UNIT, 0, 2 * UNIT)), (Entity(3), sphere(0, 0, 0, 1))];
    assert_eq!(bvh_update(&mut store, &frame2), Ok(()));
    assert_eq!(store.entities(), &vec![Entity(1), Entity(2), Entity(3)]);
    let v2 = store.get(Entity(2)).unwrap();
    assert_eq!(v2.aabb.min, Point::new(-2 * UNIT, 2 * UNIT, -2 * UNIT));
    assert_eq!(v2.aabb.max, Point::new(2 * UNIT, 6 * UNIT, 2 * UNIT));
    assert_eq!(v2.collider, sphere(0, 4 * UNIT, 0, 2 * UNIT));
    // A new entity listed twice is appended once, at its first appearance.
    let frame3 = vec![(Entity(5), sphere(0, 0, 0, 1)), (Entity(1), sphere(0, 0, 0, 1)), (Entity(5), sphere(0, 0, 0, 2))];
    assert_eq!(bvh_update(&mut store, &frame3), Ok(()));
    assert_eq!(store.entities(), &vec![Entity(1), Entity(2), Entity(3), Entity(5)]);
    assert_eq!(store.get(Entity(5)).unwrap().collider, sphere(0, 0, 0, 2));
    // Entity 2 was missing from the last frame and keeps its volume.
    assert_eq!(store.get(Entity(2)).unwrap().aabb.max, Point::new(2 * UNIT, 6 * UNIT, 2 * UNIT));
    // Entity 1 was missing from the second frame and kept its volume then.
    assert_eq!(store.get(Entity(1)).unwrap().aabb.max, Point::new(1, 1, 1));
}

#[test]
fn bvh_update_reports_unsupported_shape_and_changes_nothing() {
    let mut store = BoundingVolumeManager::new();
    store.assign(Entity(1), volume(1, 0, UNIT));
    let boxed = CachedCollider::Box(BoxShape {
        center: Point::new(0, 0, 0),
        half_widths: Point::new(UNIT, UNIT, UNIT),
    });
    let frame = vec![(Entity(1), sphere(9 * UNIT, 0, 0, UNIT)), (Entity(2), boxed)];
    assert_eq!(bvh_update(&mut store, &frame), Err(ColliderError::UnsupportedShape));
    assert_eq!(store.entities(), &vec![Entity(1)]);
    assert_eq!(store.get(Entity(1)), Some(&volume(1, 0, UNIT)));
    let frame = vec![(Entity(3), CachedCollider::Mesh)];
    assert_eq!(bvh_update(&mut store, &frame), Err(ColliderError::UnsupportedShape));
    let frame = vec![(Entity(3), sphere(0, 0, 0, 1)), (Entity(4), sphere(0, COORD_LIMIT, 0, 1))];
    assert_eq!(bvh_update(&mut store, &frame), Err(ColliderError::OutOfRange));
    assert_eq!(store.entities().len(), 1);
}

#[test]
fn destroy_marked_swaps_in_marking_order() {
    let mut store = BoundingVolumeManager::new();
    for id in 1..=4u64 {
        store.assign(Entity(id), volume(id, id as i64 * UNIT, UNIT));
    }
    store.destroy_all(Entity(1));
    store.destroy_all(Entity(3));
    store.destroy_marked();
    // Entity 1 leaves first and entity 4 takes its slot; entity 3 is then last.
    assert_eq!(store.entities(), &vec![Entity(4), Entity(2)]);
    assert_consistent(&store);
}
