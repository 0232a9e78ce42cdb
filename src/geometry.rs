//! Fixed-point points, collider shapes and axis-aligned bounding boxes.
//!
//! World coordinates are integers: `UNIT` steps make one world unit, so a
//! coordinate of 1.5 world units is stored as `1500`. Every coordinate that
//! the broad phase handles lies within `-COORD_LIMIT ..= COORD_LIMIT`, which
//! keeps all products and grid keys inside the integer types used below.
use vstd::prelude::*;

verus! {

/// Fixed-point steps per world unit.
pub const UNIT: i64 = 1000;

/// Largest magnitude of a coordinate that a bounding box may reach.
pub const COORD_LIMIT: i64 = 1_099_511_627_776;

pub open spec fn in_limits(v: int) -> bool {
    -COORD_LIMIT <= v <= COORD_LIMIT
}

/// A point (or a vector) in fixed-point world coordinates.
#[derive(Clone, Copy, Debug, PartialEq, Eq, Structural)]
pub struct Point {
    pub x: i64,
    pub y: i64,
    pub z: i64,
}

impl Point {
    pub fn new(x: i64, y: i64, z: i64) -> (r: Point)
        ensures
            r == (Point { x, y, z }),
    {
        Point { x, y, z }
    }

    pub open spec fn in_limits(self) -> bool {
        in_limits(self.x as int) && in_limits(self.y as int) && in_limits(self.z as int)
    }
}

/// A sphere in world space.
#[derive(Clone, Copy, Debug, PartialEq, Eq, Structural)]
pub struct Sphere {
    pub center: Point,
    pub radius: i64,
}

impl Sphere {
    /// Center minus and plus the radius stay within the coordinate limits on
    /// every axis. A negative radius is allowed: its box is then empty.
    pub open spec fn wf(self) -> bool {
        &&& in_limits(self.center.x - self.radius) && in_limits(self.center.x + self.radius)
        &&& in_limits(self.center.y - self.radius) && in_limits(self.center.y + self.radius)
        &&& in_limits(self.center.z - self.radius) && in_limits(self.center.z + self.radius)
    }

    /// Whether the sphere satisfies `wf`.
    pub fn is_within_limits(&self) -> (r: bool)
        ensures
            r == self.wf(),
    {
        let r = self.radius as i128;
        let lo = -(COORD_LIMIT as i128);
        let hi = COORD_LIMIT as i128;
        let cx = self.center.x as i128;
        let cy = self.center.y as i128;
        let cz = self.center.z as i128;
        lo <= cx - r && cx - r <= hi && lo <= cx + r && cx + r <= hi && lo <= cy - r && cy - r
            <= hi && lo <= cy + r && cy + r <= hi && lo <= cz - r && cz - r <= hi && lo <= cz + r
            && cz + r <= hi
    }
}

/// A box in world space, given by its center and its half extent on each axis.
#[derive(Clone, Copy, Debug, PartialEq, Eq, Structural)]
pub struct BoxShape {
    pub center: Point,
    pub half_widths: Point,
}

/// A collider transformed into world space.
///
/// Only spheres take part in bounding and collision tests; the other shapes
/// are carried along and reported as unsupported where a test needs them.
#[derive(Clone, Copy, Debug, PartialEq, Eq, Structural)]
pub enum CachedCollider {
    Sphere(Sphere),
    Box(BoxShape),
    Mesh,
}

/// Why no bounding box could be built for a collider.
#[derive(Clone, Copy, Debug, PartialEq, Eq, Structural)]
pub enum ColliderError {
    /// Boxes and meshes cannot be bounded yet.
    UnsupportedShape,
    /// The sphere's box reaches past `COORD_LIMIT`.
    OutOfRange,
}

pub open spec fn sq(v: int) -> int {
    v * v
}

/// Squared distance between two points.
pub open spec fn dist2(a: Point, b: Point) -> int {
    sq(a.x - b.x) + sq(a.y - b.y) + sq(a.z - b.z)
}

impl CachedCollider {
    /// A shape on which the shape-level test is defined.
    pub open spec fn supported(self) -> bool {
        match self {
            CachedCollider::Sphere(s) => s.wf(),
            _ => false,
        }
    }

    /// Two spheres touch when the distance between their centers is at most
    /// the sum of their radii. A sphere with a negative radius holds no point
    /// and touches nothing.
    pub open spec fn touches(self, other: CachedCollider) -> bool {
        match (self, other) {
            (CachedCollider::Sphere(a), CachedCollider::Sphere(b)) => a.radius >= 0 && b.radius
                >= 0 && dist2(a.center, b.center) <= sq(a.radius + b.radius),
            _ => false,
        }
    }

    /// Whether the shape-level test is defined on this collider.
    pub fn is_supported(&self) -> (r: bool)
        ensures
            r == self.supported(),
    {
        match self {
            CachedCollider::Sphere(s) => s.is_within_limits(),
            _ => false,
        }
    }

    /// The shape-level collision test between two supported colliders.
    pub fn test(&self, other: &CachedCollider) -> (r: bool)
        requires
            self.supported(),
            other.supported(),
        ensures
            r == self.touches(*other),
    {
        match (self, other) {
            (CachedCollider::Sphere(a), CachedCollider::Sphere(b)) => {
                let dx = a.center.x as i128 - b.center.x as i128;
                let dy = a.center.y as i128 - b.center.y as i128;
                let dz = a.center.z as i128 - b.center.z as i128;
                let rs = a.radius as i128 + b.radius as i128;
                proof {
                    lemma_square_bound(dx as int);
                    lemma_square_bound(dy as int);
                    lemma_square_bound(dz as int);
                    lemma_square_bound(rs as int);
                }
                a.radius >= 0 && b.radius >= 0 && dx * dx + dy * dy + dz * dz <= rs * rs
            },
            _ => false,
        }
    }
}

/// The square of a difference of two coordinates within the limits.
proof fn lemma_square_bound(d: int)
    requires
        -2 * COORD_LIMIT <= d <= 2 * COORD_LIMIT,
    ensures
        0 <= d * d <= 4 * COORD_LIMIT * COORD_LIMIT,
{
    assert(0 <= d * d <= 4 * COORD_LIMIT * COORD_LIMIT) by (nonlinear_arith)
        requires
            -2 * COORD_LIMIT <= d <= 2 * COORD_LIMIT,
    ;
}

/// An axis-aligned bounding box, given by its lowest and highest corner.
#[derive(Clone, Copy, Debug, PartialEq, Eq, Structural)]
pub struct AABB {
    pub min: Point,
    pub max: Point,
}

/// Neither of the ranges `[min_a, max_a]` and `[min_b, max_b]` starts past
/// the end of the other. For ranges with `min <= max` this means that they
/// share a point.
pub open spec fn ranges_overlap(min_a: int, max_a: int, min_b: int, max_b: int) -> bool {
    min_a <= max_b && min_b <= max_a
}

/// The bounding box of a sphere: its center minus and plus the radius on every axis.
pub open spec fn sphere_aabb(s: Sphere) -> AABB {
    AABB {
        min: Point {
            x: (s.center.x - s.radius) as i64,
            y: (s.center.y - s.radius) as i64,
            z: (s.center.z - s.radius) as i64,
        },
        max: Point {
            x: (s.center.x + s.radius) as i64,
            y: (s.center.y + s.radius) as i64,
            z: (s.center.z + s.radius) as i64,
        },
    }
}

/// What `AABB::from_collider` yields for a collider.
pub open spec fn aabb_result(c: CachedCollider) -> Result<AABB, ColliderError> {
    match c {
        CachedCollider::Sphere(s) => if s.wf() {
            Ok(sphere_aabb(s))
        } else {
            Err(ColliderError::OutOfRange)
        },
        _ => Err(ColliderError::UnsupportedShape),
    }
}

impl AABB {
    /// Both corners lie within the coordinate limits.
    pub open spec fn wf(self) -> bool {
        self.min.in_limits() && self.max.in_limits()
    }

    /// The box holds no point: `min > max` on some axis.
    pub open spec fn is_empty(self) -> bool {
        self.min.x > self.max.x || self.min.y > self.max.y || self.min.z > self.max.z
    }

    /// On every axis neither box starts past the end of the other; for
    /// non-empty boxes this means that they share a point.
    pub open spec fn overlaps(self, other: AABB) -> bool {
        &&& ranges_overlap(self.min.x as int, self.max.x as int, other.min.x as int, other.max.x as int)
        &&& ranges_overlap(self.min.y as int, self.max.y as int, other.min.y as int, other.max.y as int)
        &&& ranges_overlap(self.min.z as int, self.max.z as int, other.min.z as int, other.max.z as int)
    }

    /// Whether the box satisfies `wf`.
    pub fn is_valid(&self) -> (r: bool)
        ensures
            r == self.wf(),
    {
        -COORD_LIMIT <= self.min.x && self.max.x <= COORD_LIMIT && -COORD_LIMIT <= self.min.y
            && self.max.y <= COORD_LIMIT && -COORD_LIMIT <= self.min.z && self.max.z <= COORD_LIMIT
            && self.max.x >= -COORD_LIMIT && self.min.x <= COORD_LIMIT && self.max.y >= -COORD_LIMIT
            && self.min.y <= COORD_LIMIT && self.max.z >= -COORD_LIMIT && self.min.z <= COORD_LIMIT
    }

    /// Whether the box holds no point.
    pub fn is_empty_box(&self) -> (r: bool)
        ensures
            r == self.is_empty(),
    {
        self.min.x > self.max.x || self.min.y > self.max.y || self.min.z > self.max.z
    }

    /// Builds the box that bounds a world-space collider.
    pub fn from_collider(cached_collider: &CachedCollider) -> (r: Result<AABB, ColliderError>)
        ensures
            r == aabb_result(*cached_collider),
            r matches Ok(b) ==> b.wf(),
    {
        match cached_collider {
            CachedCollider::Sphere(sphere) => {
                if !sphere.is_within_limits() {
                    return Err(ColliderError::OutOfRange);
                }
                let c = sphere.center;
                let r = sphere.radius;
                Ok(
                    AABB {
                        min: Point::new(c.x - r, c.y - r, c.z - r),
                        max: Point::new(c.x + r, c.y + r, c.z + r),
                    },
                )
            },
            CachedCollider::Box(_) => Err(ColliderError::UnsupportedShape),
            CachedCollider::Mesh => Err(ColliderError::UnsupportedShape),
        }
    }

    /// Whether, on every axis, neither box starts past the end of the other.
    pub fn test_aabb(&self, other: &AABB) -> (r: bool)
        ensures
            r == self.overlaps(*other),
    {
        test_ranges((self.min.x, self.max.x), (other.min.x, other.max.x)) && test_ranges(
            (self.min.y, self.max.y),
            (other.min.y, other.max.y),
        ) && test_ranges((self.min.z, self.max.z), (other.min.z, other.max.z))
    }
}

fn test_ranges(first: (i64, i64), second: (i64, i64)) -> (r: bool)
    ensures
        r == ranges_overlap(first.0 as int, first.1 as int, second.0 as int, second.1 as int),
{
    let (min_a, max_a) = first;
    let (min_b, max_b) = second;
    !(min_a > max_b || min_b > max_a)
}

} // verus!
