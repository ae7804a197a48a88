use vstd::prelude::*;
use crate::point::{Points, PairOfPoints, dist2, lemma_dist2_basics};
use crate::pairs::{is_pair_in, is_closest_pair};

verus! {

/// Finds the closest pair of `points` by comparing every pair of positions.
/// Among pairs at equal distance, the first in the order of positions wins.
pub fn closest_pair(points: &Points) -> (r: Option<PairOfPoints>)
    ensures
        r is None <==> points@.len() < 2,
        r matches Some((p, q)) ==> is_closest_pair(points@, p, q),
{
    let n = points.len();
    if n < 2 {
        return None;
    }
    let mut best_i: usize = 0;
    let mut best_j: usize = 1;
    let mut min_distance = points[0].squared_distance(&points[1]);
    for i in 0..n
        invariant
            n == points@.len(),
            n >= 2,
            best_i < best_j < n,
            min_distance == dist2(points@[best_i as int], points@[best_j as int]),
            forall|a: int, b: int|
                0 <= a < i && a < b < n ==> min_distance <= #[trigger] dist2(
                    points@[a],
                    points@[b],
                ),
    {
        for j in i + 1..n
            invariant
                n == points@.len(),
                i < n,
                best_i < best_j < n,
                min_distance == dist2(points@[best_i as int], points@[best_j as int]),
                forall|a: int, b: int|
                    0 <= a < i && a < b < n ==> min_distance <= #[trigger] dist2(
                        points@[a],
                        points@[b],
                    ),
                forall|b: int| i < b < j ==> min_distance <= #[trigger] dist2(points@[i as int], points@[b]),
        {
            let distance = points[i].squared_distance(&points[j]);
            if distance < min_distance {
                min_distance = distance;
                best_i = i;
                best_j = j;
            }
        }
    }
    let p = points[best_i];
    let q = points[best_j];
    proof {
        assert(is_pair_in(points@, p, q));
        assert forall|a: int, b: int|
            0 <= a < n && 0 <= b < n && a != b implies dist2(p, q) <= #[trigger] dist2(
                points@[a],
                points@[b],
            ) by {
            if b < a {
                lemma_dist2_basics(points@[a], points@[b]);
                assert(min_distance <= dist2(points@[b], points@[a]));
            }
        }
    }
    Some((p, q))
}

} // verus!
