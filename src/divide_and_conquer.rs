pub mod sort_by;
pub mod strip;
pub mod packing;
pub mod recursive;

use vstd::prelude::*;
use crate::point::{Points, PairOfPoints};
use crate::pairs::{is_closest_pair, lemma_closest_to_multiset};
use crate::divide_and_conquer::sort_by::{sort_points_by_x, sort_points_by_y};
use crate::divide_and_conquer::recursive::closest_pair_recursive;

verus! {

broadcast use vstd::seq_lib::group_to_multiset_ensures;

/// Finds the closest pair of `points` in O(n log n): both orderings are built
/// once, then the divide-and-conquer search runs on them.
pub fn closest_pair(points: &Points) -> (r: Option<PairOfPoints>)
    ensures
        r is None <==> points@.len() < 2,
        r matches Some((p, q)) ==> is_closest_pair(points@, p, q),
{
    let px = sort_points_by_x(points);
    let py = sort_points_by_y(points);
    let r = closest_pair_recursive(&px, &py);
    proof {
        assert(px@.len() == px@.to_multiset().len());
        assert(points@.len() == points@.to_multiset().len());
        if let Some((p, q)) = r {
            lemma_closest_to_multiset(points@, p, q);
        }
    }
    r
}

} // verus!
