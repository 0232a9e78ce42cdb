use gunship::bounding_volume::{BoundVolume, Entity};
use gunship::geometry::{BoxShape, CachedCollider, ColliderError, Point, Sphere, AABB, COORD_LIMIT, UNIT};

fn sphere(x: i64, y: i64, z: i64, radius: i64) -> CachedCollider {
    CachedCollider::Sphere(Sphere { center: Point::new(x, y, z), radius })
}

#[test]
fn sphere_aabb_is_center_plus_minus_radius() {
    let aabb = AABB::from_collider(&sphere(0, 0, 0, 2 * UNIT)).unwrap();
    assert_eq!(aabb.min, Point::new(-2 * UNIT, -2 * UNIT, -2 * UNIT));
    assert_eq!(aabb.max, Point::new(2 * UNIT, 2 * UNIT, 2 * UNIT));
    let aabb = AABB::from_collider(&sphere(0, 0, 0, 2)).unwrap();
    assert_eq!(aabb.min, Point::new(-2, -2, -2));
    assert_eq!(aabb.max, Point::new(2, 2, 2));
    let aabb = AABB::from_collider(&sphere(10, -20, 30, 5)).unwrap();
    assert_eq!(aabb.min, Point::new(5, -25, 25));
    assert_eq!(aabb.max, Point::new(15, -15, 35));
}

#[test]
fn box_and_mesh_cannot_be_bounded() {
    let boxed = CachedCollider::Box(BoxShape {
        center: Point::new(0, 0, 0),
        half_widths: Point::new(1, 1, 1),
    });
    assert_eq!(AABB::from_collider(&boxed), Err(ColliderError::UnsupportedShape));
    assert_eq!(AABB::from_collider(&CachedCollider::Mesh), Err(ColliderError::UnsupportedShape));
}

#[test]
fn spheres_past_the_limits_are_rejected() {
    assert_eq!(AABB::from_collider(&sphere(COORD_LIMIT, 0, 0, 1)), Err(ColliderError::OutOfRange));
    assert_eq!(AABB::from_collider(&sphere(0, i64::MIN, 0, 0)), Err(ColliderError::OutOfRange));
    let edge = AABB::from_collider(&sphere(COORD_LIMIT - 1, 0, 0, 1)).unwrap();
    assert_eq!(edge.max.x, COORD_LIMIT);
}

#[test]
fn negative_radius_gives_an_empty_box() {
    let aabb = AABB::from_collider(&sphere(0, 0, 0, -2 * UNIT)).unwrap();
    assert_eq!(aabb.min, Point::new(2 * UNIT, 2 * UNIT, 2 * UNIT));
    assert_eq!(aabb.max, Point::new(-2 * UNIT, -2 * UNIT, -2 * UNIT));
    assert!(aabb.is_empty_box());
    let whole = AABB { min: Point::new(-5 * UNIT, -5 * UNIT, -5 * UNIT), max: Point::new(5 * UNIT, 5 * UNIT, 5 * UNIT) };
    // The box test compares each start with the other's end only, so an
    // inverted box inside another passes it; the sphere test then fails.
    assert!(aabb.test_aabb(&whole));
    assert!(whole.test_aabb(&aabb));
    let inverted = BoundVolume { entity: Entity(1), aabb, collider: sphere(0, 0, 0, -2 * UNIT) };
    let big = BoundVolume { entity: Entity(2), aabb: whole, collider: sphere(0, 0, 0, 5 * UNIT) };
    assert!(!inverted.test(&big));
    assert!(!big.test(&inverted));
    let edge = AABB::from_collider(&sphere(COORD_LIMIT - 1, 0, 0, -1)).unwrap();
    assert_eq!((edge.min.x, edge.max.x), (COORD_LIMIT, COORD_LIMIT - 2));
    assert_eq!(AABB::from_collider(&sphere(-COORD_LIMIT, 0, 0, -1)), Err(ColliderError::OutOfRange));
}

#[test]
fn aabb_test_includes_touching_faces() {
    let a = AABB { min: Point::new(0, 0, 0), max: Point::new(2, 2, 2) };
    let b = AABB { min: Point::new(2, 0, 0), max: Point::new(4, 2, 2) };
    let c = AABB { min: Point::new(3, 0, 0), max: Point::new(4, 2, 2) };
    let d = AABB { min: Point::new(0, 3, 0), max: Point::new(2, 4, 2) };
    assert!(a.test_aabb(&b));
    assert!(b.test_aabb(&a));
    assert!(!a.test_aabb(&c));
    assert!(!a.test_aabb(&d));
    assert!(b.test_aabb(&c));
}

#[test]
fn inverted_range_against_wider_range_overlaps() {
    let inverted = AABB { min: Point::new(3, 0, 0), max: Point::new(1, 2, 2) };
    let wide = AABB { min: Point::new(0, 0, 0), max: Point::new(5, 2, 2) };
    let beside = AABB { min: Point::new(4, 0, 0), max: Point::new(5, 2, 2) };
    assert!(inverted.test_aabb(&wide));
    assert!(!inverted.test_aabb(&beside));
}

#[test]
fn sphere_test_compares_distance_with_radii() {
    let a = sphere(0, 0, 0, 3);
    let b = sphere(3, 4, 0, 2);
    let c = sphere(3, 4, 0, 1);
    assert!(a.test(&b));
    assert!(!a.test(&c));
    assert!(c.test(&c));
    assert!(!sphere(0, 0, 0, -1).test(&sphere(0, 0, 0, 5)));
}

#[test]
fn disjoint_boxes_never_reach_the_shape_test() {
    // Box colliders have no shape test; with disjoint boxes it is not run.
    let boxed = CachedCollider::Box(BoxShape {
        center: Point::new(0, 0, 0),
        half_widths: Point::new(1, 1, 1),
    });
    let first = BoundVolume {
        entity: Entity(1),
        aabb: AABB { min: Point::new(-1, -1, -1), max: Point::new(1, 1, 1) },
        collider: boxed,
    };
    let second = BoundVolume {
        entity: Entity(2),
        aabb: AABB { min: Point::new(5, 5, 5), max: Point::new(7, 7, 7) },
        collider: CachedCollider::Mesh,
    };
    assert!(!first.test(&second));
    assert!(!second.test(&first));
}

#[test]
fn volume_test_needs_overlapping_boxes_and_touching_shapes() {
    let make = |entity: u64, x: i64, y: i64, r: i64| {
        let collider = sphere(x, y, 0, r);
        BoundVolume { entity: Entity(entity), aabb: AABB::from_collider(&collider).unwrap(), collider }
    };
    let a = make(1, 0, 0, 10);
    // Boxes overlap near the corner, spheres do not touch.
    let b = make(2, 15, 15, 10);
    // Spheres touch.
    let c = make(3, 12, 0, 2);
    assert!(!a.test(&b));
    assert!(a.test(&c));
    assert!(c.test(&a));
}
