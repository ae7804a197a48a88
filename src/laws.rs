//! What holds of every closest pair that the two searches report.
use vstd::prelude::*;
use crate::point::{Point, dist2, lemma_dist2_basics};
use crate::pairs::{is_closest_pair, lemma_closest_to_multiset};

verus! {

/// Any two closest pairs of one collection are equally far apart. So the
/// divide-and-conquer search and the brute-force search report the same
/// distance on every collection of two or more points, and repeated calls on
/// one collection report the same distance, whichever pair each call picks.
pub proof fn lemma_closest_distance_is_unique(
    points: Seq<Point>,
    p1: Point,
    q1: Point,
    p2: Point,
    q2: Point,
)
    requires
        is_closest_pair(points, p1, q1),
        is_closest_pair(points, p2, q2),
    ensures
        dist2(p1, q1) == dist2(p2, q2),
{
    let (i1, j1) = choose|i: int, j: int|
        0 <= i < points.len() && 0 <= j < points.len() && i != j && #[trigger] points[i] == p1
            && #[trigger] points[j] == q1;
    let (i2, j2) = choose|i: int, j: int|
        0 <= i < points.len() && 0 <= j < points.len() && i != j && #[trigger] points[i] == p2
            && #[trigger] points[j] == q2;
    assert(dist2(p1, q1) <= dist2(points[i2], points[j2]));
    assert(dist2(p2, q2) <= dist2(points[i1], points[j1]));
}

/// Reordering a collection does not change the distance of its closest pair.
pub proof fn lemma_reordering_keeps_distance(
    points: Seq<Point>,
    reordered: Seq<Point>,
    p1: Point,
    q1: Point,
    p2: Point,
    q2: Point,
)
    requires
        reordered.to_multiset() == points.to_multiset(),
        is_closest_pair(points, p1, q1),
        is_closest_pair(reordered, p2, q2),
    ensures
        dist2(p1, q1) == dist2(p2, q2),
{
    lemma_closest_to_multiset(points, p1, q1);
    lemma_closest_to_multiset(reordered, p2, q2);
    lemma_closest_to_multiset(points, p2, q2);
    lemma_closest_distance_is_unique(points, p1, q1, p2, q2);
}

/// A collection that holds the same point at two positions has a closest pair
/// at distance zero.
pub proof fn lemma_duplicate_gives_zero(points: Seq<Point>, i: int, j: int, p: Point, q: Point)
    requires
        0 <= i < points.len(),
        0 <= j < points.len(),
        i != j,
        points[i] == points[j],
        is_closest_pair(points, p, q),
    ensures
        dist2(p, q) == 0,
{
    lemma_dist2_basics(points[i], points[j]);
    lemma_dist2_basics(p, q);
    assert(dist2(p, q) <= dist2(points[i], points[j]));
}

} // verus!
