use vstd::prelude::*;

verus! {

/// Number of coordinate units in one unit of length: coordinates carry two decimals.
pub const SCALE: i32 = 100;

/// A point of the plane with fixed-point integer coordinates.
#[derive(Clone, Copy, Debug, PartialEq, Eq, Structural)]
pub struct Point {
    pub x: i32,
    pub y: i32,
}

/// A collection of points.
pub type Points = Vec<Point>;

/// Two points of a collection.
pub type PairOfPoints = (Point, Point);

/// The square of the Euclidean distance between `a` and `b`.
pub open spec fn dist2(a: Point, b: Point) -> int {
    (a.x - b.x) * (a.x - b.x) + (a.y - b.y) * (a.y - b.y)
}

/// The squared distance is symmetric and never negative.
pub proof fn lemma_dist2_basics(a: Point, b: Point)
    ensures
        dist2(a, b) == dist2(b, a),
        dist2(a, b) >= 0,
        dist2(a, a) == 0,
{
    assert(dist2(a, b) == dist2(b, a)) by (nonlinear_arith);
    assert(dist2(a, b) >= 0) by (nonlinear_arith);
}

impl Point {
    /// The point with coordinates `x` and `y`.
    pub fn new(x: i32, y: i32) -> (r: Point)
        ensures
            r.x == x,
            r.y == y,
    {
        Point { x, y }
    }

    /// The square of the Euclidean distance to `other`, computed exactly.
    pub fn squared_distance(&self, other: &Point) -> (r: u128)
        ensures
            r == dist2(*self, *other),
    {
        let dx: i128 = other.x as i128 - self.x as i128;
        let dy: i128 = other.y as i128 - self.y as i128;
        assert(0 <= dx * dx <= 0x1_0000_0000_0000_0000) by (nonlinear_arith)
            requires
                -0x1_0000_0000 <= dx <= 0x1_0000_0000,
        ;
        assert(0 <= dy * dy <= 0x1_0000_0000_0000_0000) by (nonlinear_arith)
            requires
                -0x1_0000_0000 <= dy <= 0x1_0000_0000,
        ;
        assert(dist2(*self, *other) == dx * dx + dy * dy) by (nonlinear_arith)
            requires
                dx == other.x - self.x,
                dy == other.y - self.y,
        ;
        (dx * dx + dy * dy) as u128
    }
}

/// The largest capacity whose range, in coordinate units, fits an `i32`.
pub const MAX_CAPACITY: u32 = 42_949_672;

/// A span of coordinates, from `min` (included) to `max` (excluded), in
/// coordinate units.
#[derive(Clone, Copy, Debug, PartialEq, Eq, Structural)]
pub struct PointRange {
    pub min: i32,
    pub max: i32,
}

impl PointRange {
    /// The range centred on zero whose bound is half of `capacity`, rounded up,
    /// in whole units of length.
    pub fn new_from_capacity(capacity: u32) -> (r: PointRange)
        requires
            capacity <= MAX_CAPACITY,
        ensures
            r.max == (capacity as int + 1) / 2 * SCALE,
            r.min == -r.max,
    {
        let half: i32 = ((capacity / 2) + (capacity % 2)) as i32;
        let max = half * SCALE;
        PointRange { min: -max, max }
    }

    /// The range as a `Range` of std.
    pub fn to_native_range(&self) -> (r: std::ops::Range<i32>)
        ensures
            r.start == self.min,
            r.end == self.max,
    {
        self.min..self.max
    }
}

/// Relies on `rand::random_range`: a value drawn from the thread-local
/// generator within `low..high`.
#[verifier::external_body]
fn random_coordinate(low: i32, high: i32) -> (r: i32)
    requires
        low < high,
    ensures
        low <= r < high,
{
    rand::random_range(low..high)
}

impl Point {
    /// A point drawn at random with both coordinates in `range`.
    pub fn generate_random(range: &PointRange) -> (r: Point)
        requires
            range.min < range.max,
        ensures
            range.min <= r.x < range.max,
            range.min <= r.y < range.max,
    {
        let x = random_coordinate(range.min, range.max);
        let y = random_coordinate(range.min, range.max);
        Point { x, y }
    }
}

/// Whether `points` holds a point equal to `p`.
pub fn contains_point(points: &Points, p: &Point) -> (r: bool)
    ensures
        r == points@.contains(*p),
{
    for k in 0..points.len()
        invariant
            forall|t: int| 0 <= t < k ==> points@[t] != *p,
    {
        if points[k] == *p {
            return true;
        }
    }
    false
}

} // verus!
