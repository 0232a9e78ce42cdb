use gunship::bounding_volume::{bvh_update, BoundingVolumeManager, Entity};
use gunship::geometry::{CachedCollider, Point, Sphere, UNIT};
use gunship::grid_collision::{GridCell, GridCollisionSystem};

fn sphere(x: i64, y: i64, z: i64, radius: i64) -> CachedCollider {
    CachedCollider::Sphere(Sphere { center: Point::new(x, y, z), radius })
}

fn store_of(colliders: Vec<(Entity, CachedCollider)>) -> BoundingVolumeManager {
    let mut store = BoundingVolumeManager::new();
    assert_eq!(bvh_update(&mut store, &colliders), Ok(()));
    store
}

#[test]
fn default_cell_is_one_world_unit() {
    let grid = GridCollisionSystem::new();
    assert_eq!(grid.cell_size(), UNIT);
    assert!(grid.collision_pairs().is_empty());
}

#[test]
fn world_to_grid_rounds_down_for_negative_coordinates() {
    let grid = GridCollisionSystem::new();
    let cell = grid.world_to_grid(Point::new(1500, -500, 2000));
    assert_eq!(cell, GridCell::new(1, -1, 2));
    assert_eq!(grid.world_to_grid(Point::new(-1000, -1001, 999)), GridCell::new(-1, -2, 0));
    let coarse = GridCollisionSystem::with_cell_size(3);
    assert_eq!(coarse.world_to_grid(Point::new(-7, 7, -3)), GridCell::new(-3, 2, -1));
}

#[test]
fn overlapping_spheres_in_one_large_cell_give_one_pair() {
    let store = store_of(vec![
        (Entity(1), sphere(0, 0, 0, UNIT)),
        (Entity(2), sphere(3 * UNIT / 2, 0, 0, UNIT)),
    ]);
    let mut grid = GridCollisionSystem::with_cell_size(10 * UNIT);
    grid.update(&store);
    assert_eq!(grid.collision_pairs(), &vec![(Entity(2), Entity(1))]);
}

#[test]
fn disjoint_spheres_give_no_pair() {
    let store = store_of(vec![
        (Entity(1), sphere(0, 0, 0, UNIT)),
        (Entity(2), sphere(5 * UNIT, 0, 0, UNIT)),
    ]);
    let mut grid = GridCollisionSystem::with_cell_size(10 * UNIT);
    grid.update(&store);
    assert!(grid.collision_pairs().is_empty());
    let mut fine = GridCollisionSystem::new();
    fine.update(&store);
    assert!(fine.collision_pairs().is_empty());
}

#[test]
fn three_collinear_entities_give_only_the_overlapping_pair() {
    let a = Entity(10);
    let b = Entity(20);
    let c = Entity(30);
    let store = store_of(vec![
        (a, sphere(0, 0, 0, UNIT)),
        (b, sphere(3 * UNIT / 2, 0, 0, UNIT)),
        (c, sphere(4 * UNIT, 0, 0, UNIT)),
    ]);
    let mut grid = GridCollisionSystem::new();
    grid.update(&store);
    assert_eq!(grid.collision_pairs(), &vec![(b, a)]);
}

#[test]
fn pair_spanning_many_cells_is_reported_once() {
    let store = store_of(vec![
        (Entity(1), sphere(0, 0, 0, 3 * UNIT)),
        (Entity(2), sphere(UNIT, UNIT, UNIT, 3 * UNIT)),
    ]);
    let mut grid = GridCollisionSystem::with_cell_size(UNIT / 2);
    grid.update(&store);
    assert_eq!(grid.collision_pairs(), &vec![(Entity(2), Entity(1))]);
}

#[test]
fn pairs_do_not_depend_on_cell_size() {
    let colliders = vec![
        (Entity(1), sphere(0, 0, 0, UNIT)),
        (Entity(2), sphere(UNIT, 0, 0, UNIT)),
        (Entity(3), sphere(-UNIT, -UNIT, 0, UNIT)),
        (Entity(4), sphere(9 * UNIT, 9 * UNIT, 9 * UNIT, UNIT)),
        (Entity(5), sphere(-3 * UNIT / 2, -UNIT / 2, 0, UNIT / 4)),
    ];
    let store = store_of(colliders);
    let mut sizes = vec![];
    for cell_size in [UNIT / 3, UNIT / 2, UNIT, 5 * UNIT, 100 * UNIT] {
        let mut grid = GridCollisionSystem::with_cell_size(cell_size);
        grid.update(&store);
        let mut pairs = grid.collision_pairs().clone();
        pairs.sort_by_key(|p| (p.0 .0, p.1 .0));
        sizes.push(pairs);
    }
    let expected = vec![
        (Entity(2), Entity(1)),
        (Entity(3), Entity(1)),
        (Entity(5), Entity(3)),
    ];
    for pairs in sizes {
        assert_eq!(pairs, expected);
    }
}

#[test]
fn update_forgets_last_frame() {
    let mut store = store_of(vec![
        (Entity(1), sphere(0, 0, 0, UNIT)),
        (Entity(2), sphere(UNIT, 0, 0, UNIT)),
    ]);
    let mut grid = GridCollisionSystem::new();
    grid.update(&store);
    assert_eq!(grid.collision_pairs().len(), 1);
    let moved = vec![(Entity(2), sphere(20 * UNIT, 0, 0, UNIT))];
    assert_eq!(bvh_update(&mut store, &moved), Ok(()));
    grid.update(&store);
    assert!(grid.collision_pairs().is_empty());
    store.destroy_all(Entity(2));
    store.destroy_marked();
    grid.update(&store);
    assert!(grid.collision_pairs().is_empty());
}

#[test]
fn grid_iter_walks_the_cuboid_z_fastest() {
    let mut iter = GridCell::new(0, 0, 0).iter_to(GridCell::new(1, 1, 1));
    let mut cells = vec![];
    while let Some(cell) = iter.next() {
        cells.push(cell);
    }
    assert_eq!(
        cells,
        vec![
            GridCell::new(0, 0, 0),
            GridCell::new(0, 0, 1),
            GridCell::new(0, 1, 0),
            GridCell::new(0, 1, 1),
            GridCell::new(1, 0, 0),
            GridCell::new(1, 0, 1),
            GridCell::new(1, 1, 0),
            GridCell::new(1, 1, 1),
        ]
    );
    assert_eq!(iter.next(), None);
}

#[test]
fn grid_iter_single_and_empty_ranges() {
    let mut single = GridCell::new(-2, 3, 4).iter_to(GridCell::new(-2, 3, 4));
    assert_eq!(single.next(), Some(GridCell::new(-2, 3, 4)));
    assert_eq!(single.next(), None);
    let mut empty = GridCell::new(1, 0, 0).iter_to(GridCell::new(0, 5, 5));
    assert_eq!(empty.next(), None);
}

#[test]
fn debug_grid_lines_span_fifty_cells_each_way() {
    let grid = GridCollisionSystem::with_cell_size(2);
    let lines = grid.grid_lines();
    assert_eq!(lines.len(), 200);
    assert_eq!(lines[0], (Point::new(-100, -100, 0), Point::new(-100, 100, 0)));
    assert_eq!(lines[1], (Point::new(-100, -100, 0), Point::new(100, -100, 0)));
    assert_eq!(lines[100], (Point::new(0, -100, 0), Point::new(0, 100, 0)));
    assert_eq!(lines[199], (Point::new(-100, 98, 0), Point::new(100, 98, 0)));
}

#[test]
fn volume_with_negative_radius_collides_with_nothing() {
    let store = store_of(vec![
        (Entity(1), sphere(0, 0, 0, 2 * UNIT)),
        (Entity(2), sphere(0, 0, 0, -UNIT)),
        (Entity(3), sphere(UNIT, 0, 0, UNIT)),
    ]);
    assert!(store.volumes_ready());
    let mut grid = GridCollisionSystem::new();
    grid.update(&store);
    assert_eq!(grid.collision_pairs(), &vec![(Entity(3), Entity(1))]);
}
