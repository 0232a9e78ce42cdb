//! Broad phase on a uniform grid: each frame every bounding volume is put in
//! the cubic cells that its box reaches and tested against the volumes placed
//! in those cells before it.
use std::collections::HashMap;
use vstd::prelude::*;
use vstd::arithmetic::div_mod::{lemma_div_is_ordered, lemma_fundamental_div_mod, lemma_fundamental_div_mod_converse};
use vstd::std_specs::hash::group_hash_axioms;
use crate::geometry::{AABB, COORD_LIMIT, Point, UNIT, in_limits};
use crate::bounding_volume::{BoundVolume, BoundingVolumeManager, Entity};

verus! {

broadcast use group_hash_axioms;

/// Shifts a cell coordinate into `0 .. KEY_RADIX` when building a cell key.
const KEY_OFFSET: i64 = 2_199_023_255_552;

/// Each cell coordinate takes one digit of this radix in a cell key.
const KEY_RADIX: u128 = 4_398_046_511_104;

/// Integer coordinates of a cubic grid cell: the cell holds the points whose
/// coordinates, divided by the cell size and rounded down, are these.
#[derive(Clone, Copy, Debug, PartialEq, Eq, Hash, Structural)]
pub struct GridCell {
    pub x: i64,
    pub y: i64,
    pub z: i64,
}

/// The grid coordinate of a world coordinate: division rounded down.
pub open spec fn cell_coord(v: int, cell_size: int) -> int {
    v / cell_size
}

/// The lexicographic successor of `c` in the cuboid `[from, to]`, with `z`
/// varying fastest, then `y`, then `x`.
pub open spec fn cell_after(c: GridCell, from: GridCell, to: GridCell) -> Option<GridCell> {
    if c.z < to.z {
        Some(GridCell { z: (c.z + 1) as i64, ..c })
    } else if c.y < to.y {
        Some(GridCell { y: (c.y + 1) as i64, z: from.z, ..c })
    } else if c.x < to.x {
        Some(GridCell { x: (c.x + 1) as i64, y: from.y, z: from.z })
    } else {
        None
    }
}

impl GridCell {
    pub fn new(x: i64, y: i64, z: i64) -> (r: GridCell)
        ensures
            r == (GridCell { x, y, z }),
    {
        GridCell { x, y, z }
    }

    pub open spec fn in_limits(self) -> bool {
        in_limits(self.x as int) && in_limits(self.y as int) && in_limits(self.z as int)
    }

    /// The cell lies in the cuboid `[lo, hi]`, bounds included.
    pub open spec fn within(self, lo: GridCell, hi: GridCell) -> bool {
        &&& lo.x <= self.x <= hi.x
        &&& lo.y <= self.y <= hi.y
        &&& lo.z <= self.z <= hi.z
    }

    /// An iterator over the cells of the cuboid from `self` to `dest`, bounds
    /// included; it is empty when `dest` is below `self` on some axis.
    pub fn iter_to(&self, dest: GridCell) -> (r: GridIter)
        ensures
            r.wf(),
            r.spec_from() == *self,
            r.spec_to() == dest,
            r.spec_next() == if self.within(*self, dest) {
                Some(*self)
            } else {
                None::<GridCell>
            },
    {
        let done = !(self.x <= dest.x && self.y <= dest.y && self.z <= dest.z);
        GridIter { from: *self, to: dest, next: *self, done }
    }
}

/// Walks a cuboid of cells, `z` fastest, then `y`, then `x`.
pub struct GridIter {
    from: GridCell,
    to: GridCell,
    next: GridCell,
    done: bool,
}

impl GridIter {
    pub closed spec fn spec_from(&self) -> GridCell {
        self.from
    }

    pub closed spec fn spec_to(&self) -> GridCell {
        self.to
    }

    /// The cell that `next` yields, or `None` once the walk is over.
    pub closed spec fn spec_next(&self) -> Option<GridCell> {
        if self.done {
            None
        } else {
            Some(self.next)
        }
    }

    pub open spec fn wf(&self) -> bool {
        self.spec_next() matches Some(c) ==> c.within(self.spec_from(), self.spec_to())
    }

    /// Yields the current cell and moves to its successor in the cuboid.
    pub fn next(&mut self) -> (r: Option<GridCell>)
        requires
            old(self).wf(),
        ensures
            final(self).wf(),
            r == old(self).spec_next(),
            final(self).spec_from() == old(self).spec_from(),
            final(self).spec_to() == old(self).spec_to(),
            final(self).spec_next() == match old(self).spec_next() {
                Some(c) => cell_after(c, old(self).spec_from(), old(self).spec_to()),
                None => None,
            },
    {
        if self.done {
            return None;
        }
        let current = self.next;
        if self.next.z < self.to.z {
            self.next.z = self.next.z + 1;
        } else if self.next.y < self.to.y {
            self.next.y = self.next.y + 1;
            self.next.z = self.from.z;
        } else if self.next.x < self.to.x {
            self.next.x = self.next.x + 1;
            self.next.y = self.from.y;
            self.next.z = self.from.z;
        } else {
            self.done = true;
        }
        Some(current)
    }
}

/// The key under which the grid stores a cell: the three shifted
/// coordinates as digits of radix `KEY_RADIX`.
spec fn cell_key(c: GridCell) -> int {
    ((c.x + KEY_OFFSET) * KEY_RADIX + (c.y + KEY_OFFSET)) * KEY_RADIX + (c.z + KEY_OFFSET)
}

fn key_of(c: &GridCell) -> (k: u128)
    requires
        c.in_limits(),
    ensures
        k == cell_key(*c),
{
    let x = (c.x + KEY_OFFSET) as u128;
    let y = (c.y + KEY_OFFSET) as u128;
    let z = (c.z + KEY_OFFSET) as u128;
    assert(x * KEY_RADIX + y < KEY_RADIX * KEY_RADIX) by (nonlinear_arith)
        requires
            x < KEY_RADIX,
            y < KEY_RADIX,
    ;
    let high = x * KEY_RADIX + y;
    assert(high * KEY_RADIX + z < KEY_RADIX * KEY_RADIX * KEY_RADIX) by (nonlinear_arith)
        requires
            high < KEY_RADIX * KEY_RADIX,
            z < KEY_RADIX,
    ;
    high * KEY_RADIX + z
}

/// Distinct cells within the coordinate limits have distinct keys.
proof fn lemma_cell_key_injective(a: GridCell, b: GridCell)
    requires
        a.in_limits(),
        b.in_limits(),
        cell_key(a) == cell_key(b),
    ensures
        a == b,
{
    let r = KEY_RADIX as int;
    let ha = (a.x + KEY_OFFSET) * r + (a.y + KEY_OFFSET);
    let hb = (b.x + KEY_OFFSET) * r + (b.y + KEY_OFFSET);
    lemma_fundamental_div_mod_converse(cell_key(a), r, ha, a.z + KEY_OFFSET);
    lemma_fundamental_div_mod_converse(cell_key(b), r, hb, b.z + KEY_OFFSET);
    lemma_fundamental_div_mod_converse(ha, r, a.x + KEY_OFFSET, a.y + KEY_OFFSET);
    lemma_fundamental_div_mod_converse(hb, r, b.x + KEY_OFFSET, b.y + KEY_OFFSET);
}

/// Dividing a coordinate within the limits by a positive cell size, rounded
/// down, stays within the limits.
proof fn lemma_cell_coord_in_limits(v: int, cell_size: int)
    requires
        in_limits(v),
        cell_size >= 1,
    ensures
        in_limits(cell_coord(v, cell_size)),
{
    lemma_fundamental_div_mod(v, cell_size);
    let q = v / cell_size;
    let m = v % cell_size;
    assert(-COORD_LIMIT <= q <= COORD_LIMIT) by (nonlinear_arith)
        requires
            v == cell_size * q + m,
            0 <= m < cell_size,
            cell_size >= 1,
            -COORD_LIMIT <= v <= COORD_LIMIT,
    ;
}

fn floor_div(a: i64, b: i64) -> (r: i64)
    requires
        b > 0,
    ensures
        r == a / b,
{
    if a >= 0 {
        a / b
    } else {
        let n = -(a + 1);
        let q = n / b;
        proof {
            let ni = n as int;
            let bi = b as int;
            lemma_fundamental_div_mod(ni, bi);
            let qq: int = ni / bi;
            let rr: int = ni % bi;
            assert(a == bi * (-qq - 1) + (bi - rr - 1)) by (nonlinear_arith)
                requires
                    ni == bi * qq + rr,
                    a == -ni - 1,
            ;
            lemma_fundamental_div_mod_converse(a as int, bi, -qq - 1, bi - rr - 1);
        }
        -q - 1
    }
}

/// The cell lies in the cuboid of cells that the box reaches; an empty box
/// reaches no cell.
pub open spec fn cell_in_box(c: GridCell, aabb: AABB, cell_size: int) -> bool {
    &&& !aabb.is_empty()
    &&& cell_coord(aabb.min.x as int, cell_size) <= c.x <= cell_coord(aabb.max.x as int, cell_size)
    &&& cell_coord(aabb.min.y as int, cell_size) <= c.y <= cell_coord(aabb.max.y as int, cell_size)
    &&& cell_coord(aabb.min.z as int, cell_size) <= c.z <= cell_coord(aabb.max.z as int, cell_size)
}

pub open spec fn max_int(a: int, b: int) -> int {
    if a >= b {
        a
    } else {
        b
    }
}

/// The lowest cell that two boxes share when they overlap: the first cell in
/// which the later of the two meets the earlier one.
pub open spec fn first_shared_cell(a: AABB, b: AABB, cell_size: int) -> GridCell {
    GridCell {
        x: max_int(cell_coord(a.min.x as int, cell_size), cell_coord(b.min.x as int, cell_size)) as i64,
        y: max_int(cell_coord(a.min.y as int, cell_size), cell_coord(b.min.y as int, cell_size)) as i64,
        z: max_int(cell_coord(a.min.z as int, cell_size), cell_coord(b.min.z as int, cell_size)) as i64,
    }
}

/// The pairs `(entities[i], entities[j])`, `j < i`, whose volumes collide
/// (`BoundVolume::collides`: both boxes non-empty, and the volumes touch):
/// every volume is tested against the volumes stored before it.
pub open spec fn colliding_pairs(vols: Seq<BoundVolume>, ents: Seq<Entity>) -> Set<(Entity, Entity)> {
    Set::new(
        |p: (Entity, Entity)|
            exists|i: int, j: int|
                0 <= j < i < vols.len() && #[trigger] vols[i].collides(vols[j]) && p == (
                    ents[i],
                    ents[j],
                ),
    )
}

/// `pairs` lists each colliding pair of the store exactly once, in some order.
pub open spec fn reports_collisions(pairs: Seq<(Entity, Entity)>, store: &BoundingVolumeManager) -> bool {
    &&& pairs.to_set() == colliding_pairs(store.spec_components(), store.spec_entities())
    &&& pairs.no_duplicates()
}

/// Non-empty boxes that overlap share their first shared cell, and it lies within the limits.
proof fn lemma_first_shared_cell(a: AABB, b: AABB, cell_size: int)
    requires
        a.wf(),
        b.wf(),
        a.overlaps(b),
        !a.is_empty(),
        !b.is_empty(),
        cell_size >= 1,
    ensures
        cell_in_box(first_shared_cell(a, b, cell_size), a, cell_size),
        cell_in_box(first_shared_cell(a, b, cell_size), b, cell_size),
        first_shared_cell(a, b, cell_size).in_limits(),
{
    lemma_div_is_ordered(a.min.x as int, a.max.x as int, cell_size);
    lemma_div_is_ordered(b.min.x as int, a.max.x as int, cell_size);
    lemma_div_is_ordered(b.min.x as int, b.max.x as int, cell_size);
    lemma_div_is_ordered(a.min.x as int, b.max.x as int, cell_size);
    lemma_div_is_ordered(a.min.y as int, a.max.y as int, cell_size);
    lemma_div_is_ordered(b.min.y as int, a.max.y as int, cell_size);
    lemma_div_is_ordered(b.min.y as int, b.max.y as int, cell_size);
    lemma_div_is_ordered(a.min.y as int, b.max.y as int, cell_size);
    lemma_div_is_ordered(a.min.z as int, a.max.z as int, cell_size);
    lemma_div_is_ordered(b.min.z as int, a.max.z as int, cell_size);
    lemma_div_is_ordered(b.min.z as int, b.max.z as int, cell_size);
    lemma_div_is_ordered(a.min.z as int, b.max.z as int, cell_size);
    lemma_cell_coord_in_limits(a.min.x as int, cell_size);
    lemma_cell_coord_in_limits(a.min.y as int, cell_size);
    lemma_cell_coord_in_limits(a.min.z as int, cell_size);
    lemma_cell_coord_in_limits(b.min.x as int, cell_size);
    lemma_cell_coord_in_limits(b.min.y as int, cell_size);
    lemma_cell_coord_in_limits(b.min.z as int, cell_size);
}

/// A cell that a box within the limits reaches is within the limits too.
proof fn lemma_cell_in_box_in_limits(c: GridCell, aabb: AABB, cell_size: int)
    requires
        aabb.wf(),
        cell_in_box(c, aabb, cell_size),
        cell_size >= 1,
    ensures
        c.in_limits(),
{
    lemma_cell_coord_in_limits(aabb.min.x as int, cell_size);
    lemma_cell_coord_in_limits(aabb.min.y as int, cell_size);
    lemma_cell_coord_in_limits(aabb.min.z as int, cell_size);
    lemma_cell_coord_in_limits(aabb.max.x as int, cell_size);
    lemma_cell_coord_in_limits(aabb.max.y as int, cell_size);
    lemma_cell_coord_in_limits(aabb.max.z as int, cell_size);
}

/// The volumes that a grid bucket holds: in increasing order, each either
/// an earlier volume that reaches the cell or volume `i` itself once the
/// cell has been visited for it.
spec fn bucket_sound(
    b: Seq<usize>,
    c: GridCell,
    vols: Seq<BoundVolume>,
    cell_size: int,
    i: int,
    visited: Set<GridCell>,
) -> bool {
    &&& forall|t1: int, t2: int| 0 <= t1 < t2 < b.len() ==> b[t1] < b[t2]
    &&& forall|t: int|
        0 <= t < b.len() ==> ((#[trigger] b[t]) < i && cell_in_box(
            c,
            vols[b[t] as int].aabb,
            cell_size,
        )) || (b[t] == i && visited.contains(c))
}

/// The grid while volume `i` is being placed: the volumes before `i` sit in
/// every cell they reach, volume `i` in the cells visited so far, and no
/// bucket holds anything else.
spec fn grid_inv(
    grid: Map<u128, Vec<usize>>,
    vols: Seq<BoundVolume>,
    cell_size: int,
    i: int,
    visited: Set<GridCell>,
) -> bool {
    &&& forall|c: GridCell|
        c.in_limits() && #[trigger] grid.contains_key(cell_key(c) as u128) ==> bucket_sound(
            grid[cell_key(c) as u128]@,
            c,
            vols,
            cell_size,
            i,
            visited,
        )
    &&& forall|j: int, c: GridCell|
        0 <= j < i && #[trigger] cell_in_box(c, vols[j].aabb, cell_size) ==> grid.contains_key(
            cell_key(c) as u128,
        ) && grid[cell_key(c) as u128]@.contains(j as usize)
    &&& forall|c: GridCell|
        #[trigger] visited.contains(c) ==> grid.contains_key(cell_key(c) as u128) && grid[cell_key(
            c,
        ) as u128]@.contains(i as usize)
}

/// What `pairs` holds while volume `i` is being placed, with `found[t]` the
/// slots of the two volumes of `pairs[t]`: each colliding pair of earlier
/// volumes once, and the pairs of volume `i` whose first shared cell has
/// been visited.
spec fn pairs_inv(
    pairs: Seq<(Entity, Entity)>,
    found: Seq<(int, int)>,
    vols: Seq<BoundVolume>,
    ents: Seq<Entity>,
    cell_size: int,
    i: int,
    visited: Set<GridCell>,
) -> bool {
    &&& pairs.len() == found.len()
    &&& forall|t: int|
        0 <= t < found.len() ==> {
            let (a, b) = #[trigger] found[t];
            &&& 0 <= b < a <= i
            &&& a < vols.len()
            &&& pairs[t] == (ents[a], ents[b])
            &&& vols[a].collides(vols[b])
            &&& (a < i || visited.contains(first_shared_cell(vols[a].aabb, vols[b].aabb, cell_size)))
        }
    &&& forall|t1: int, t2: int| 0 <= t1 < t2 < found.len() ==> found[t1] != found[t2]
    &&& forall|a: int, b: int|
        0 <= b < a < i && #[trigger] vols[a].collides(vols[b]) ==> found.contains((a, b))
    &&& forall|b: int|
        0 <= b < i && i < vols.len() && #[trigger] vols[i].collides(vols[b]) && visited.contains(
            first_shared_cell(vols[i].aabb, vols[b].aabb, cell_size),
        ) ==> found.contains((i, b))
}

/// The cells of the cuboid `[lo, hi]` that come before `(x, y, z)` in the
/// walk order: `z` fastest, then `y`, then `x`.
spec fn cells_before(lo: GridCell, hi: GridCell, x: int, y: int, z: int) -> Set<GridCell> {
    Set::new(
        |c: GridCell|
            c.within(lo, hi) && (c.x < x || (c.x == x && c.y < y) || (c.x == x && c.y == y && c.z
                < z)),
    )
}

/// Line `k` of the debug grid drawn in the `z = 0` plane: for each `i` in
/// `-50 .. 50`, a line along `y` at `x = i * cell_size` followed by a line
/// along `x` at `y = i * cell_size`, each spanning `±50` cells.
pub open spec fn grid_line(cell_size: int, k: int) -> (Point, Point) {
    let offset = (k / 2 - 50) * cell_size;
    let extent = 50 * cell_size;
    if k % 2 == 0 {
        (
            Point { x: offset as i64, y: -extent as i64, z: 0 },
            Point { x: offset as i64, y: extent as i64, z: 0 },
        )
    } else {
        (
            Point { x: -extent as i64, y: offset as i64, z: 0 },
            Point { x: extent as i64, y: offset as i64, z: 0 },
        )
    }
}

/// What stays fixed while volume `i` is placed: the volumes are well formed,
/// the box of volume `i` is not empty, and `lo` and `hi` are the cells of its
/// lowest and highest corner.
spec fn placement(
    vs: Seq<BoundVolume>,
    n_entities: int,
    i: int,
    cell_size: int,
    lo: GridCell,
    hi: GridCell,
) -> bool {
    let aabb = vs[i].aabb;
    &&& cell_size >= 1
    &&& 0 <= i < vs.len()
    &&& vs.len() == n_entities
    &&& forall|k: int| 0 <= k < vs.len() ==> #[trigger] vs[k].wf()
    &&& !aabb.is_empty()
    &&& lo.x == cell_coord(aabb.min.x as int, cell_size) && lo.y == cell_coord(aabb.min.y as int, cell_size)
        && lo.z == cell_coord(aabb.min.z as int, cell_size)
    &&& hi.x == cell_coord(aabb.max.x as int, cell_size) && hi.y == cell_coord(aabb.max.y as int, cell_size)
        && hi.z == cell_coord(aabb.max.z as int, cell_size)
    &&& lo.x <= hi.x && lo.y <= hi.y && lo.z <= hi.z
    &&& hi.in_limits()
}

/// A collision system that partitions space into a regular grid of cubes
/// of edge `cell_size`.
pub struct GridCollisionSystem {
    /// Cell key to the slots of the volumes placed in that cell this frame.
    grid: HashMap<u128, Vec<usize>>,
    /// The pairs found, each once: a pair is recorded only in the first cell
    /// the two boxes share, so no set is needed to drop repeats.
    collisions: Vec<(Entity, Entity)>,
    cell_size: i64,
}

impl GridCollisionSystem {
    pub closed spec fn spec_cell_size(&self) -> int {
        self.cell_size as int
    }

    /// The pairs found by the last `update`.
    pub closed spec fn spec_collisions(&self) -> Seq<(Entity, Entity)> {
        self.collisions@
    }

    pub closed spec fn wf(&self) -> bool {
        self.cell_size >= 1 && self.grid@ == Map::<u128, Vec<usize>>::empty()
    }

    /// A system with cells of one world unit and no pairs.
    pub fn new() -> (r: GridCollisionSystem)
        ensures
            r.wf(),
            r.spec_cell_size() == UNIT,
            r.spec_collisions().len() == 0,
    {
        GridCollisionSystem { grid: HashMap::new(), collisions: Vec::new(), cell_size: UNIT }
    }

    /// A system with cells of edge `cell_size` and no pairs.
    pub fn with_cell_size(cell_size: i64) -> (r: GridCollisionSystem)
        requires
            cell_size >= 1,
        ensures
            r.wf(),
            r.spec_cell_size() == cell_size,
            r.spec_collisions().len() == 0,
    {
        GridCollisionSystem { grid: HashMap::new(), collisions: Vec::new(), cell_size }
    }

    pub fn cell_size(&self) -> (r: i64)
        ensures
            r == self.spec_cell_size(),
    {
        self.cell_size
    }

    /// The colliding pairs found by the last `update`.
    pub fn collision_pairs(&self) -> (r: &Vec<(Entity, Entity)>)
        ensures
            r@ == self.spec_collisions(),
    {
        &self.collisions
    }

    /// The lines of the debug grid, for drawing; see `grid_line`.
    pub fn grid_lines(&self) -> (r: Vec<(Point, Point)>)
        requires
            self.wf(),
            50 * self.spec_cell_size() <= i64::MAX,
        ensures
            r@.len() == 200,
            forall|k: int| 0 <= k < 200 ==> #[trigger] r@[k] == grid_line(self.spec_cell_size(), k),
    {
        let cs = self.cell_size;
        let extent = 50 * cs;
        let mut lines: Vec<(Point, Point)> = Vec::new();
        let mut i: i64 = -50;
        while i < 50
            invariant
                cs == self.spec_cell_size(),
                1 <= cs,
                extent == 50 * cs,
                -50 <= i <= 50,
                lines@.len() == 2 * (i + 50),
                forall|k: int|
                    0 <= k < lines@.len() ==> #[trigger] lines@[k] == grid_line(cs as int, k),
            decreases 50 - i,
        {
            assert(-extent <= i * cs <= extent) by (nonlinear_arith)
                requires
                    -50 <= i < 50,
                    1 <= cs,
                    extent == 50 * cs,
            ;
            let offset = i * cs;
            let k = lines.len();
            lines.push((Point::new(offset, -extent, 0), Point::new(offset, extent, 0)));
            lines.push((Point::new(-extent, offset, 0), Point::new(extent, offset, 0)));
            proof {
                lemma_fundamental_div_mod_converse(k as int, 2, i + 50, 0);
                lemma_fundamental_div_mod_converse(k + 1, 2, i + 50, 1);
            }
            i += 1;
        }
        lines
    }

    /// Converts a point in world space to its grid cell.
    pub fn world_to_grid(&self, point: Point) -> (r: GridCell)
        requires
            self.wf(),
        ensures
            r.x == cell_coord(point.x as int, self.spec_cell_size()),
            r.y == cell_coord(point.y as int, self.spec_cell_size()),
            r.z == cell_coord(point.z as int, self.spec_cell_size()),
    {
        point_to_cell(point, self.cell_size)
    }
}

fn point_to_cell(point: Point, cell_size: i64) -> (r: GridCell)
    requires
        cell_size >= 1,
    ensures
        r.x == cell_coord(point.x as int, cell_size as int),
        r.y == cell_coord(point.y as int, cell_size as int),
        r.z == cell_coord(point.z as int, cell_size as int),
{
    GridCell {
        x: floor_div(point.x, cell_size),
        y: floor_div(point.y, cell_size),
        z: floor_div(point.z, cell_size),
    }
}

fn max_i64(a: i64, b: i64) -> (r: i64)
    ensures
        r == max_int(a as int, b as int),
{
    if a >= b {
        a
    } else {
        b
    }
}

impl GridCollisionSystem {
    /// Tests volume `i` against the volumes already placed in cell `c` and
    /// records each colliding pair whose first shared cell is `c`; then
    /// places volume `i` in `c`.
    fn visit_cell(
        &mut self,
        vols: &Vec<BoundVolume>,
        ents: &Vec<Entity>,
        i: usize,
        c: GridCell,
        Ghost(visited): Ghost<Set<GridCell>>,
        Ghost(found): Ghost<Seq<(int, int)>>,
    ) -> (found_after: Ghost<Seq<(int, int)>>)
        requires
            old(self).cell_size >= 1,
            i < vols@.len(),
            vols@.len() == ents@.len(),
            forall|k: int| 0 <= k < vols@.len() ==> #[trigger] vols@[k].wf(),
            cell_in_box(c, vols@[i as int].aabb, old(self).cell_size as int),
            !visited.contains(c),
            forall|c2: GridCell|
                #[trigger] visited.contains(c2) ==> cell_in_box(
                    c2,
                    vols@[i as int].aabb,
                    old(self).cell_size as int,
                ),
            grid_inv(old(self).grid@, vols@, old(self).cell_size as int, i as int, visited),
            pairs_inv(
                old(self).collisions@,
                found,
                vols@,
                ents@,
                old(self).cell_size as int,
                i as int,
                visited,
            ),
        ensures
            final(self).cell_size == old(self).cell_size,
            grid_inv(
                final(self).grid@,
                vols@,
                old(self).cell_size as int,
                i as int,
                visited.insert(c),
            ),
            pairs_inv(
                final(self).collisions@,
                found_after@,
                vols@,
                ents@,
                old(self).cell_size as int,
                i as int,
                visited.insert(c),
            ),
    {
        let ghost s = self.cell_size as int;
        let ghost vs = vols@;
        let ghost grid0 = self.grid@;
        let ghost ii = i as int;
        proof {
            assert(vs[ii].wf());
            lemma_cell_in_box_in_limits(c, vs[ii].aabb, s);
            assert(grid_inv(grid0, vs, s, ii, visited));
        }
        let key = key_of(&c);
        let mut bucket = match self.grid.remove(&key) {
            Some(b) => b,
            None => Vec::new(),
        };
        let ghost bk = bucket@;
        let ghost grid_r = self.grid@;
        assert(grid_r == grid0.remove(key));
        proof {
            if grid0.contains_key(key) {
                assert(grid0.contains_key(cell_key(c) as u128));
                assert(bucket_sound(grid0[key]@, c, vs, s, ii, visited));
            }
            assert forall|j: int| 0 <= j < ii && cell_in_box(c, vs[j].aabb, s) implies bk.contains(
                j as usize,
            ) by {
                assert(cell_in_box(c, vs[j].aabb, s));
            }
        }
        let lo_i = point_to_cell(vols[i].aabb.min, self.cell_size);
        let ghost mut f = found;
        let mut t: usize = 0;
        while t < bucket.len()
            invariant
                s == self.cell_size as int,
                s >= 1,
                vs == vols@,
                ii == i as int,
                ii < vs.len(),
                vs.len() == ents@.len(),
                forall|k: int| 0 <= k < vs.len() ==> #[trigger] vs[k].wf(),
                cell_in_box(c, vs[ii].aabb, s),
                !visited.contains(c),
                lo_i.x == cell_coord(vs[ii].aabb.min.x as int, s),
                lo_i.y == cell_coord(vs[ii].aabb.min.y as int, s),
                lo_i.z == cell_coord(vs[ii].aabb.min.z as int, s),
                bucket@ == bk,
                self.grid@ == grid_r,
                t <= bk.len(),
                forall|t1: int, t2: int| 0 <= t1 < t2 < bk.len() ==> bk[t1] < bk[t2],
                forall|tt: int|
                    0 <= tt < bk.len() ==> (#[trigger] bk[tt]) < ii && cell_in_box(
                        c,
                        vs[bk[tt] as int].aabb,
                        s,
                    ),
                self.collisions@.len() == f.len(),
                forall|tt: int|
                    0 <= tt < f.len() ==> {
                        let (a, b) = #[trigger] f[tt];
                        &&& 0 <= b < a <= ii
                        &&& a < vs.len()
                        &&& self.collisions@[tt] == (ents@[a], ents@[b])
                        &&& vs[a].collides(vs[b])
                        &&& (a < ii || visited.contains(first_shared_cell(vs[a].aabb, vs[b].aabb, s))
                            || (first_shared_cell(vs[a].aabb, vs[b].aabb, s) == c
                            && bk.subrange(0, t as int).contains(b as usize)))
                    },
                forall|t1: int, t2: int| 0 <= t1 < t2 < f.len() ==> f[t1] != f[t2],
                forall|a: int, b: int|
                    0 <= b < a < ii && #[trigger] vs[a].collides(vs[b]) ==> f.contains((a, b)),
                forall|b: int|
                    0 <= b < ii && #[trigger] vs[ii].collides(vs[b]) && (visited.contains(
                        first_shared_cell(vs[ii].aabb, vs[b].aabb, s),
                    ) || (first_shared_cell(vs[ii].aabb, vs[b].aabb, s) == c && bk.subrange(
                        0,
                        t as int,
                    ).contains(b as usize))) ==> f.contains((ii, b)),
            decreases bk.len() - t,
        {
            let j = bucket[t];
            let lo_j = point_to_cell(vols[j].aabb.min, self.cell_size);
            let first = GridCell::new(
                max_i64(lo_i.x, lo_j.x),
                max_i64(lo_i.y, lo_j.y),
                max_i64(lo_i.z, lo_j.z),
            );
            let ghost f0 = f;
            proof {
                assert(vs[ii].wf());
                assert(vs[j as int].wf());
                assert(bk.subrange(0, t + 1) =~= bk.subrange(0, t as int).push(j));
            }
            if first == c && vols[i].test(&vols[j]) {
                self.collisions.push((ents[i], ents[j]));
                proof {
                    f = f.push((ii, j as int));
                    assert(f[f.len() - 1] == (ii, j as int));
                    assert forall|t1: int, t2: int| 0 <= t1 < t2 < f.len() implies f[t1] != f[t2] by {
                        if t2 == f.len() - 1 {
                            let (a, b) = f0[t1];
                            assert(f0[t1] == f[t1]);
                            if a == ii && b == j as int {
                                assert(first_shared_cell(vs[a].aabb, vs[b].aabb, s) == c);
                                let w = choose|w: int|
                                    0 <= w < t && bk.subrange(0, t as int)[w] == b as usize;
                                assert(bk[w] < bk[t as int]);
                            }
                        }
                    }
                }
            }
            proof {
                assert forall|tt: int| 0 <= tt < f.len() implies {
                    let (a, b) = #[trigger] f[tt];
                    &&& 0 <= b < a <= ii
                    &&& a < vs.len()
                    &&& self.collisions@[tt] == (ents@[a], ents@[b])
                    &&& vs[a].collides(vs[b])
                    &&& (a < ii || visited.contains(first_shared_cell(vs[a].aabb, vs[b].aabb, s))
                        || (first_shared_cell(vs[a].aabb, vs[b].aabb, s) == c && bk.subrange(
                        0,
                        t + 1,
                    ).contains(b as usize)))
                } by {
                    let (a, b) = f[tt];
                    if tt < f0.len() {
                        assert(f[tt] == f0[tt]);
                        if a == ii && !visited.contains(first_shared_cell(vs[a].aabb, vs[b].aabb, s)) {
                            let w = choose|w: int|
                                0 <= w < t && bk.subrange(0, t as int)[w] == b as usize;
                            assert(bk.subrange(0, t + 1)[w] == b as usize);
                        }
                    } else {
                        assert(bk.subrange(0, t + 1)[t as int] == j);
                    }
                }
                assert forall|a: int, b: int|
                    0 <= b < a < ii && #[trigger] vs[a].collides(vs[b]) implies f.contains((a, b)) by {
                    assert(f0.contains((a, b)));
                    let w = choose|w: int| 0 <= w < f0.len() && f0[w] == (a, b);
                    assert(f[w] == (a, b));
                }
                assert forall|b: int|
                    0 <= b < ii && #[trigger] vs[ii].collides(vs[b]) && (visited.contains(
                        first_shared_cell(vs[ii].aabb, vs[b].aabb, s),
                    ) || (first_shared_cell(vs[ii].aabb, vs[b].aabb, s) == c && bk.subrange(
                        0,
                        t + 1,
                    ).contains(b as usize))) implies f.contains((ii, b)) by {
                    if b == j as int && first_shared_cell(vs[ii].aabb, vs[b].aabb, s) == c
                        && !visited.contains(first_shared_cell(vs[ii].aabb, vs[b].aabb, s)) {
                        assert(first == c);
                        assert(f[f.len() - 1] == (ii, b));
                    } else {
                        if !visited.contains(first_shared_cell(vs[ii].aabb, vs[b].aabb, s)) {
                            let sub1 = bk.subrange(0, t + 1);
                            let w = choose|w: int| 0 <= w < sub1.len() && sub1[w] == b as usize;
                            if w == t {
                                assert(b == j as int);
                                assert(false);
                            }
                            assert(bk.subrange(0, t as int)[w] == b as usize);
                        }
                        assert(f0.contains((ii, b)));
                        let w = choose|w: int| 0 <= w < f0.len() && f0[w] == (ii, b);
                        assert(f[w] == (ii, b));
                    }
                }
            }
            t += 1;
        }
        proof {
            assert(bk.subrange(0, bk.len() as int) =~= bk);
        }
        bucket.push(i);
        let ghost nbv = bucket;
        self.grid.insert(key, bucket);
        proof {
            assert(self.grid@ == grid_r.insert(key, nbv));
            let v2 = visited.insert(c);
            let grid1 = self.grid@;
            // the new bucket
            assert forall|c2: GridCell|
                c2.in_limits() && #[trigger] grid1.contains_key(cell_key(c2) as u128) implies bucket_sound(
                grid1[cell_key(c2) as u128]@,
                c2,
                vs,
                s,
                ii,
                v2,
            ) by {
                if cell_key(c2) as u128 == key {
                    lemma_cell_key_injective(c2, c);
                    let nb = grid1[key]@;
                    assert(nb == bk.push(i));
                    assert forall|t1: int, t2: int| 0 <= t1 < t2 < nb.len() implies nb[t1] < nb[t2] by {
                        assert(nb[t1] == bk[t1]);
                        if t2 < bk.len() {
                            assert(nb[t2] == bk[t2]);
                        }
                    }
                    assert forall|tt: int| 0 <= tt < nb.len() implies ((#[trigger] nb[tt]) < ii
                        && cell_in_box(c2, vs[nb[tt] as int].aabb, s)) || (nb[tt] == ii && v2.contains(
                        c2,
                    )) by {
                        if tt < bk.len() {
                            assert(nb[tt] == bk[tt]);
                        }
                    }
                } else {
                    assert(grid0.contains_key(cell_key(c2) as u128));
                    let ob = grid0[cell_key(c2) as u128]@;
                    assert(bucket_sound(ob, c2, vs, s, ii, visited));
                    assert(grid1[cell_key(c2) as u128]@ == ob);
                    assert forall|tt: int| 0 <= tt < ob.len() implies ((#[trigger] ob[tt]) < ii
                        && cell_in_box(c2, vs[ob[tt] as int].aabb, s)) || (ob[tt] == ii && v2.contains(
                        c2,
                    )) by {
                        assert(ob[tt] == ob[tt]);
                    }
                }
            }
            assert forall|j: int, c2: GridCell|
                0 <= j < ii && #[trigger] cell_in_box(c2, vs[j].aabb, s) implies grid1.contains_key(
                cell_key(c2) as u128,
            ) && grid1[cell_key(c2) as u128]@.contains(j as usize) by {
                assert(vs[j].wf());
                lemma_cell_in_box_in_limits(c2, vs[j].aabb, s);
                if cell_key(c2) as u128 == key {
                    lemma_cell_key_injective(c2, c);
                    let w = choose|w: int| 0 <= w < bk.len() && bk[w] == j as usize;
                    assert(grid1[key]@[w] == j as usize);
                } else {
                    assert(grid0.contains_key(cell_key(c2) as u128));
                }
            }
            assert forall|c2: GridCell| #[trigger] v2.contains(c2) implies grid1.contains_key(
                cell_key(c2) as u128,
            ) && grid1[cell_key(c2) as u128]@.contains(i) by {
                if c2 == c {
                    assert(grid1[key]@[bk.len() as int] == i);
                } else {
                    assert(visited.contains(c2));
                    lemma_cell_in_box_in_limits(c2, vs[ii].aabb, s);
                    if cell_key(c2) as u128 == key {
                        lemma_cell_key_injective(c2, c);
                    }
                    assert(grid0.contains_key(cell_key(c2) as u128));
                }
            }
            assert forall|b: int|
                0 <= b < ii && ii < vs.len() && #[trigger] vs[ii].collides(vs[b]) && v2.contains(
                    first_shared_cell(vs[ii].aabb, vs[b].aabb, s),
                ) implies f.contains((ii, b)) by {
                if first_shared_cell(vs[ii].aabb, vs[b].aabb, s) == c {
                    assert(vs[b].wf());
                    lemma_first_shared_cell(vs[ii].aabb, vs[b].aabb, s);
                    assert(bk.contains(b as usize));
                    assert(bk.subrange(0, bk.len() as int) =~= bk);
                }
            }
        }
        Ghost(f)
    }
}

impl GridCollisionSystem {
    /// Visits every cell that volume `i` reaches, in walk order.
    fn place_volume(
        &mut self,
        vols: &Vec<BoundVolume>,
        ents: &Vec<Entity>,
        i: usize,
        Ghost(found): Ghost<Seq<(int, int)>>,
    ) -> (found_after: Ghost<Seq<(int, int)>>)
        requires
            old(self).cell_size >= 1,
            i < vols@.len(),
            vols@.len() == ents@.len(),
            forall|k: int| 0 <= k < vols@.len() ==> #[trigger] vols@[k].wf(),
            grid_inv(old(self).grid@, vols@, old(self).cell_size as int, i as int, Set::empty()),
            pairs_inv(
                old(self).collisions@,
                found,
                vols@,
                ents@,
                old(self).cell_size as int,
                i as int,
                Set::empty(),
            ),
        ensures
            final(self).cell_size == old(self).cell_size,
            grid_inv(final(self).grid@, vols@, old(self).cell_size as int, i + 1, Set::empty()),
            pairs_inv(
                final(self).collisions@,
                found_after@,
                vols@,
                ents@,
                old(self).cell_size as int,
                i + 1,
                Set::empty(),
            ),
    {
        let ghost s = self.cell_size as int;
        let ghost vs = vols@;
        let ghost ii = i as int;
        let aabb = vols[i].aabb;
        let lo = point_to_cell(aabb.min, self.cell_size);
        let hi = point_to_cell(aabb.max, self.cell_size);
        let ghost mut visited: Set<GridCell> = Set::empty();
        let ghost mut f = found;
        proof {
            assert(vs[ii].wf());
            lemma_cell_coord_in_limits(aabb.max.x as int, s);
            lemma_cell_coord_in_limits(aabb.max.y as int, s);
            lemma_cell_coord_in_limits(aabb.max.z as int, s);
        }
        if !aabb.is_empty_box() {
            proof {
                lemma_div_is_ordered(aabb.min.x as int, aabb.max.x as int, s);
                lemma_div_is_ordered(aabb.min.y as int, aabb.max.y as int, s);
                lemma_div_is_ordered(aabb.min.z as int, aabb.max.z as int, s);
                assert(Set::<GridCell>::empty() =~= cells_before(lo, hi, lo.x as int, lo.y as int, lo.z as int));
            }
            let mut x = lo.x;
            while x <= hi.x
                invariant
                    s == self.cell_size as int,
                    vs == vols@,
                    ii == i as int,
                    aabb == vs[ii].aabb,
                    placement(vs, ents@.len() as int, ii, s, lo, hi),
                    lo.x <= x <= hi.x + 1,
                    visited == cells_before(lo, hi, x as int, lo.y as int, lo.z as int),
                    grid_inv(self.grid@, vs, s, ii, visited),
                    pairs_inv(self.collisions@, f, vs, ents@, s, ii, visited),
                decreases hi.x + 1 - x,
            {
                let mut y = lo.y;
                proof {
                    assert(visited =~= cells_before(lo, hi, x as int, y as int, lo.z as int));
                }
                while y <= hi.y
                    invariant
                        s == self.cell_size as int,
                        vs == vols@,
                        ii == i as int,
                        aabb == vs[ii].aabb,
                        placement(vs, ents@.len() as int, ii, s, lo, hi),
                        lo.x <= x <= hi.x,
                        lo.y <= y <= hi.y + 1,
                        visited == cells_before(lo, hi, x as int, y as int, lo.z as int),
                        grid_inv(self.grid@, vs, s, ii, visited),
                        pairs_inv(self.collisions@, f, vs, ents@, s, ii, visited),
                    decreases hi.y + 1 - y,
                {
                    let mut z = lo.z;
                    while z <= hi.z
                        invariant
                            s == self.cell_size as int,
                            vs == vols@,
                            ii == i as int,
                            aabb == vs[ii].aabb,
                            placement(vs, ents@.len() as int, ii, s, lo, hi),
                            lo.x <= x <= hi.x,
                            lo.y <= y <= hi.y,
                            lo.z <= z <= hi.z + 1,
                            visited == cells_before(lo, hi, x as int, y as int, z as int),
                            grid_inv(self.grid@, vs, s, ii, visited),
                            pairs_inv(self.collisions@, f, vs, ents@, s, ii, visited),
                        decreases hi.z + 1 - z,
                    {
                        let c = GridCell::new(x, y, z);
                        let ghost_f = self.visit_cell(vols, ents, i, c, Ghost(visited), Ghost(f));
                        proof {
                            f = ghost_f@;
                            visited = visited.insert(c);
                            assert(visited =~= cells_before(lo, hi, x as int, y as int, z + 1));
                        }
                        z += 1;
                    }
                    proof {
                        assert(visited =~= cells_before(lo, hi, x as int, y + 1, lo.z as int));
                    }
                    y += 1;
                }
                proof {
                    assert(visited =~= cells_before(lo, hi, x + 1, lo.y as int, lo.z as int));
                }
                x += 1;
            }
        }
        proof {
            let empty = Set::<GridCell>::empty();
            assert forall|c: GridCell| cell_in_box(c, aabb, s) implies #[trigger] visited.contains(c) by {
                assert(c.within(lo, hi));
            }
            let grid1 = self.grid@;
            assert forall|c: GridCell|
                c.in_limits() && #[trigger] grid1.contains_key(cell_key(c) as u128) implies bucket_sound(
                grid1[cell_key(c) as u128]@,
                c,
                vs,
                s,
                ii + 1,
                empty,
            ) by {
                let b = grid1[cell_key(c) as u128]@;
                assert(bucket_sound(b, c, vs, s, ii, visited));
                assert forall|t: int| 0 <= t < b.len() implies ((#[trigger] b[t]) < ii + 1
                    && cell_in_box(c, vs[b[t] as int].aabb, s)) || (b[t] == ii + 1 && empty.contains(
                    c,
                )) by {
                    assert(b[t] == b[t]);
                }
            }
            assert forall|j: int, c: GridCell|
                0 <= j < ii + 1 && #[trigger] cell_in_box(c, vs[j].aabb, s) implies grid1.contains_key(
                cell_key(c) as u128,
            ) && grid1[cell_key(c) as u128]@.contains(j as usize) by {
                if j == ii {
                    assert(visited.contains(c));
                }
            }
            assert forall|a: int, b: int|
                0 <= b < a < ii + 1 && #[trigger] vs[a].collides(vs[b]) implies f.contains((a, b)) by {
                if a == ii {
                    assert(vs[a].wf());
                    assert(vs[b].wf());
                    lemma_first_shared_cell(vs[a].aabb, vs[b].aabb, s);
                    assert(visited.contains(first_shared_cell(vs[a].aabb, vs[b].aabb, s)));
                }
            }
            assert forall|t: int| 0 <= t < f.len() implies {
                let (a, b) = #[trigger] f[t];
                &&& 0 <= b < a <= ii + 1
                &&& a < vs.len()
                &&& self.collisions@[t] == (ents@[a], ents@[b])
                &&& vs[a].collides(vs[b])
                &&& (a < ii + 1 || empty.contains(first_shared_cell(vs[a].aabb, vs[b].aabb, s)))
            } by {
                assert(f[t] == f[t]);
            }
        }
        Ghost(f)
    }

    /// Finds the colliding pairs among the volumes of `bvh_manager`.
    ///
    /// Each volume, in storage order, is tested against the volumes placed
    /// before it in the cells that its box reaches, and is then placed in
    /// those cells. A pair is tested and recorded in the first cell the two
    /// boxes share only, so each pair appears once. The grid is emptied
    /// afterwards. A volume with an empty box reaches no cell and collides
    /// with nothing. The pairs found do not depend on the cell size.
    pub fn update(&mut self, bvh_manager: &BoundingVolumeManager)
        requires
            old(self).wf(),
            bvh_manager.wf(),
            bvh_manager.volumes_wf(),
        ensures
            final(self).wf(),
            final(self).spec_cell_size() == old(self).spec_cell_size(),
            reports_collisions(final(self).spec_collisions(), bvh_manager),
    {
        self.collisions.clear();
        let vols = bvh_manager.components();
        let ents = bvh_manager.entities();
        let ghost s = self.cell_size as int;
        let ghost mut f: Seq<(int, int)> = Seq::empty();
        let n = vols.len();
        let mut i: usize = 0;
        while i < n
            invariant
                s == self.cell_size as int,
                s >= 1,
                n == vols@.len(),
                vols@ == bvh_manager.spec_components(),
                ents@ == bvh_manager.spec_entities(),
                bvh_manager.wf(),
                bvh_manager.volumes_wf(),
                i <= n,
                grid_inv(self.grid@, vols@, s, i as int, Set::empty()),
                pairs_inv(self.collisions@, f, vols@, ents@, s, i as int, Set::empty()),
            decreases n - i,
        {
            let ghost_f = self.place_volume(vols, ents, i, Ghost(f));
            proof {
                f = ghost_f@;
            }
            i += 1;
        }
        self.grid.clear();
        proof {
            lemma_found_pairs_complete(self.collisions@, f, bvh_manager, s);
        }
    }
}

/// At the end of a frame the recorded pairs are exactly the colliding pairs,
/// each once.
proof fn lemma_found_pairs_complete(
    pairs: Seq<(Entity, Entity)>,
    found: Seq<(int, int)>,
    store: &BoundingVolumeManager,
    cell_size: int,
)
    requires
        store.wf(),
        pairs_inv(
            pairs,
            found,
            store.spec_components(),
            store.spec_entities(),
            cell_size,
            store.len(),
            Set::empty(),
        ),
    ensures
        reports_collisions(pairs, store),
{
    let vols = store.spec_components();
    let ents = store.spec_entities();
    let idx = store.spec_index();
    assert forall|a: int, b: int| 0 <= a < ents.len() && 0 <= b < ents.len() && ents[a] == ents[b] implies a
        == b by {
        assert(idx.contains_key(ents[a].0));
        assert(idx.contains_key(ents[b].0));
    }
    let target = colliding_pairs(vols, ents);
    assert forall|p: (Entity, Entity)| pairs.to_set().contains(p) implies target.contains(p) by {
        let t = choose|t: int| 0 <= t < pairs.len() && pairs[t] == p;
        let (a, b) = found[t];
        assert(vols[a].collides(vols[b]));
    }
    assert forall|p: (Entity, Entity)| target.contains(p) implies pairs.to_set().contains(p) by {
        let (a, b) = choose|a: int, b: int|
            0 <= b < a < vols.len() && #[trigger] vols[a].collides(vols[b]) && p == (ents[a], ents[b]);
        assert(found.contains((a, b)));
        let t = choose|t: int| 0 <= t < found.len() && found[t] == (a, b);
        assert(pairs[t] == p);
    }
    assert(pairs.to_set() =~= target);
    assert forall|t1: int, t2: int| 0 <= t1 < pairs.len() && 0 <= t2 < pairs.len() && t1 != t2 implies pairs[t1]
        != pairs[t2] by {
        let (a1, b1) = found[t1];
        let (a2, b2) = found[t2];
        if pairs[t1] == pairs[t2] {
            assert(ents[a1] == ents[a2]);
            assert(ents[b1] == ents[b2]);
            if t1 < t2 {
                assert(found[t1] != found[t2]);
            } else {
                assert(found[t2] != found[t1]);
            }
        }
    }
}

/// With two stored volumes, one update reports the single pair
/// `(second, first)` when the volumes collide (both boxes non-empty and the
/// volumes touch), and no pair when their boxes are disjoint.
pub proof fn lemma_two_volumes(pairs: Seq<(Entity, Entity)>, store: &BoundingVolumeManager)
    requires
        store.wf(),
        store.len() == 2,
        reports_collisions(pairs, store),
    ensures
        ({
            let v = store.spec_components();
            let e = store.spec_entities();
            &&& v[1].collides(v[0]) ==> pairs == seq![(e[1], e[0])]
            &&& !v[1].aabb.overlaps(v[0].aabb) ==> pairs.len() == 0
        }),
{
    let v = store.spec_components();
    let e = store.spec_entities();
    let target = colliding_pairs(v, e);
    pairs.unique_seq_to_set();
    if v[1].collides(v[0]) {
        assert(target =~= set![(e[1], e[0])]) by {
            assert(target.contains((e[1], e[0])));
        }
        assert(pairs.len() == 1);
        assert(pairs.to_set().contains(pairs[0]));
        assert(pairs =~= seq![(e[1], e[0])]);
    } else {
        assert(target =~= Set::<(Entity, Entity)>::empty());
    }
}

} // verus!
