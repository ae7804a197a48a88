use vstd::prelude::*;
use crate::point::{Point, Points, PairOfPoints, dist2};

verus! {

/// How many following points, in order of `y`, each point of a strip is compared with.
pub const STRIP_NEIGHBOURS: usize = 15;

/// Positions `i < j` of `s` that are at most `STRIP_NEIGHBOURS` apart.
pub open spec fn is_window_pair(s: Seq<Point>, i: int, j: int) -> bool {
    0 <= i < j < s.len() && j - i <= STRIP_NEIGHBOURS
}

/// `(p, q)` stands at a window pair of `s`, and no window pair of `s` is closer.
pub open spec fn is_closest_window_pair(s: Seq<Point>, p: Point, q: Point) -> bool {
    &&& exists|i: int, j: int| is_window_pair(s, i, j) && #[trigger] s[i] == p && #[trigger] s[j] == q
    &&& forall|i: int, j: int|
        is_window_pair(s, i, j) ==> dist2(p, q) <= #[trigger] dist2(s[i], s[j])
}

/// Finds, among the pairs of a strip whose positions are at most
/// `STRIP_NEIGHBOURS` apart, the closest one, and returns its squared distance
/// with it. Among pairs at equal distance the first in the order of positions wins.
pub fn find_closest_pair_and_distance_in_strip(points_inside_strip: &Points) -> (r: Option<
    (u128, PairOfPoints),
>)
    ensures
        r is None <==> points_inside_strip@.len() < 2,
        r matches Some((d, (p, q))) ==> {
            &&& d == dist2(p, q)
            &&& is_closest_window_pair(points_inside_strip@, p, q)
        },
{
    let s = points_inside_strip;
    let n = s.len();
    if n < 2 {
        return None;
    }
    let mut best_i: usize = 0;
    let mut best_j: usize = 1;
    let mut min_distance = s[0].squared_distance(&s[1]);
    for i in 0..n
        invariant
            n == s@.len(),
            n >= 2,
            is_window_pair(s@, best_i as int, best_j as int),
            min_distance == dist2(s@[best_i as int], s@[best_j as int]),
            forall|a: int, b: int|
                0 <= a < i && is_window_pair(s@, a, b) ==> min_distance <= #[trigger] dist2(
                    s@[a],
                    s@[b],
                ),
    {
        let end = if n - i > STRIP_NEIGHBOURS {
            i + STRIP_NEIGHBOURS + 1
        } else {
            n
        };
        for j in i + 1..end
            invariant
                n == s@.len(),
                i < n,
                end <= n,
                end <= i + STRIP_NEIGHBOURS + 1,
                end == n || end == i + STRIP_NEIGHBOURS + 1,
                is_window_pair(s@, best_i as int, best_j as int),
                min_distance == dist2(s@[best_i as int], s@[best_j as int]),
                forall|a: int, b: int|
                    0 <= a < i && is_window_pair(s@, a, b) ==> min_distance <= #[trigger] dist2(
                        s@[a],
                        s@[b],
                    ),
                forall|b: int|
                    i < b < j ==> min_distance <= #[trigger] dist2(s@[i as int], s@[b]),
        {
            let distance = s[i].squared_distance(&s[j]);
            if distance < min_distance {
                min_distance = distance;
                best_i = i;
                best_j = j;
            }
        }
    }
    Some((min_distance, (s[best_i], s[best_j])))
}

/// Like `find_closest_pair_and_distance_in_strip`, with the distance set apart:
/// a strip of fewer than two points gives `u128::MAX` and no pair.
pub fn closest_pair_in_strip(points_inside_strip: &Points) -> (r: (u128, Option<PairOfPoints>))
    ensures
        r.1 is None <==> points_inside_strip@.len() < 2,
        r.1 is None ==> r.0 == u128::MAX,
        r.1 matches Some((p, q)) ==> {
            &&& r.0 == dist2(p, q)
            &&& is_closest_window_pair(points_inside_strip@, p, q)
        },
{
    match find_closest_pair_and_distance_in_strip(points_inside_strip) {
        Some((d, pair)) => (d, Some(pair)),
        None => (u128::MAX, None),
    }
}

} // verus!
