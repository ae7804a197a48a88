use vstd::prelude::*;
use crate::point::{Point, Points};
use crate::pairs::{holds_pair, lemma_holds_pair_subset};

verus! {

broadcast use vstd::seq_lib::group_to_multiset_ensures, vstd::multiset::group_multiset_axioms;

/// The coordinate that an ordering of points goes by first; the other one breaks ties.
#[derive(Clone, Copy, Debug, PartialEq, Eq, Structural)]
pub enum Axis {
    X,
    Y,
}

/// `a` may come before `b` when ordering by `axis`: the pair (main coordinate,
/// other coordinate) of `a` is lexicographically at most that of `b`.
pub open spec fn precedes(axis: Axis, a: Point, b: Point) -> bool {
    match axis {
        Axis::X => a.x < b.x || (a.x == b.x && a.y <= b.y),
        Axis::Y => a.y < b.y || (a.y == b.y && a.x <= b.x),
    }
}

/// Every point of `s` precedes, along `axis`, every point after it.
pub open spec fn is_sorted_by(axis: Axis, s: Seq<Point>) -> bool {
    forall|i: int, j: int| 0 <= i < j < s.len() ==> precedes(axis, #[trigger] s[i], #[trigger] s[j])
}

/// The points of `s` whose mark in `side` is `b`, in their order in `s`.
pub open spec fn part_of(s: Seq<Point>, side: Seq<bool>, b: bool) -> Seq<Point>
    decreases s.len(),
{
    if s.len() == 0 {
        Seq::empty()
    } else {
        let prev = part_of(s.drop_last(), side.drop_last(), b);
        if side.last() == b {
            prev.push(s.last())
        } else {
            prev
        }
    }
}

/// A point marked `b` is in the part marked `b`.
pub proof fn lemma_part_of_contains(s: Seq<Point>, side: Seq<bool>, b: bool, k: int)
    requires
        side.len() == s.len(),
        0 <= k < s.len(),
        side[k] == b,
    ensures
        part_of(s, side, b).contains(s[k]),
    decreases s.len(),
{
    let n = s.len() - 1;
    if k == n {
        assert(part_of(s, side, b).last() == s[k]);
    } else {
        lemma_part_of_contains(s.drop_last(), side.drop_last(), b, k);
        let prev = part_of(s.drop_last(), side.drop_last(), b);
        let t = choose|t: int| 0 <= t < prev.len() && prev[t] == s[k];
        if side.last() == b {
            assert(prev.push(s.last())[t] == s[k]);
        }
    }
}

/// Every point of the part marked `b` stands in `s` at a position marked `b`.
pub proof fn lemma_part_of_member(s: Seq<Point>, side: Seq<bool>, b: bool, v: Point)
    requires
        side.len() == s.len(),
        part_of(s, side, b).contains(v),
    ensures
        exists|k: int| 0 <= k < s.len() && side[k] == b && #[trigger] s[k] == v,
    decreases s.len(),
{
    let n = s.len() - 1;
    let prev = part_of(s.drop_last(), side.drop_last(), b);
    if side.last() == b && s.last() == v {
        assert(s[n] == v);
    } else {
        if side.last() == b {
            let t = choose|t: int| 0 <= t < prev.len() + 1 && prev.push(s.last())[t] == v;
            assert(prev[t] == v);
        }
        lemma_part_of_member(s.drop_last(), side.drop_last(), b, v);
        let k = choose|k: int| 0 <= k < n && side.drop_last()[k] == b && #[trigger] s.drop_last()[k] == v;
        assert(s[k] == v);
    }
}

/// Two positions marked `b` give a pair of the part marked `b`.
pub proof fn lemma_part_of_pair(s: Seq<Point>, side: Seq<bool>, b: bool, k: int, l: int)
    requires
        side.len() == s.len(),
        0 <= k < s.len(),
        0 <= l < s.len(),
        k != l,
        side[k] == b,
        side[l] == b,
    ensures
        holds_pair(part_of(s, side, b).to_multiset(), s[k], s[l]),
    decreases s.len(),
{
    let n = s.len() - 1;
    let prev = part_of(s.drop_last(), side.drop_last(), b);
    if k < n && l < n {
        lemma_part_of_pair(s.drop_last(), side.drop_last(), b, k, l);
        assert(s.drop_last()[k] == s[k]);
        assert(s.drop_last()[l] == s[l]);
        if side.last() == b {
            assert(prev.to_multiset().subset_of(prev.push(s.last()).to_multiset()));
            lemma_holds_pair_subset(prev.to_multiset(), prev.push(s.last()).to_multiset(), s[k], s[l]);
        }
    } else if l == n {
        lemma_part_of_contains(s.drop_last(), side.drop_last(), b, k);
        assert(s.drop_last()[k] == s[k]);
        assert(prev.to_multiset().count(s[k]) > 0);
    } else {
        lemma_part_of_contains(s.drop_last(), side.drop_last(), b, l);
        assert(s.drop_last()[l] == s[l]);
        assert(prev.to_multiset().count(s[l]) > 0);
    }
}

/// Whether `a` may come before `b` when ordering by `axis`.
pub fn comes_before(a: &Point, b: &Point, axis: Axis) -> (r: bool)
    ensures
        r == precedes(axis, *a, *b),
{
    match axis {
        Axis::X => a.x < b.x || (a.x == b.x && a.y <= b.y),
        Axis::Y => a.y < b.y || (a.y == b.y && a.x <= b.x),
    }
}

/// The points of `points` from position `lo` up to, not including, `hi`.
pub fn copy_range(points: &Points, lo: usize, hi: usize) -> (r: Points)
    requires
        lo <= hi <= points@.len(),
    ensures
        r@ == points@.subrange(lo as int, hi as int),
{
    let mut r: Points = Vec::new();
    for k in lo..hi
        invariant
            lo <= hi <= points@.len(),
            r@ == points@.subrange(lo as int, k as int),
    {
        r.push(points[k]);
    }
    r
}

/// Merges two sorted sequences of points into one sorted sequence that holds
/// the points of both. On ties the point of `left` comes first. The ghost
/// result marks each point `true` where it came from `left`.
pub fn merge(left: &Points, right: &Points, axis: Axis) -> (r: (Points, Ghost<Seq<bool>>))
    requires
        is_sorted_by(axis, left@),
        is_sorted_by(axis, right@),
        left@.len() + right@.len() <= usize::MAX,
    ensures
        is_sorted_by(axis, r.0@),
        r.0@.to_multiset() == left@.to_multiset().add(right@.to_multiset()),
        r.1@.len() == r.0@.len(),
        part_of(r.0@, r.1@, true) == left@,
        part_of(r.0@, r.1@, false) == right@,
{
    let mut result: Points = Vec::new();
    let ghost mut side: Seq<bool> = Seq::empty();
    let mut left_index: usize = 0;
    let mut right_index: usize = 0;
    while left_index < left.len() || right_index < right.len()
        invariant
            is_sorted_by(axis, left@),
            is_sorted_by(axis, right@),
            left_index <= left@.len(),
            right_index <= right@.len(),
            result@.len() == left_index + right_index,
            is_sorted_by(axis, result@),
            side.len() == result@.len(),
            part_of(result@, side, true) == left@.subrange(0, left_index as int),
            part_of(result@, side, false) == right@.subrange(0, right_index as int),
            result@.to_multiset() == left@.subrange(0, left_index as int).to_multiset().add(
                right@.subrange(0, right_index as int).to_multiset(),
            ),
            result@.len() > 0 && left_index < left@.len() ==> precedes(
                axis,
                result@.last(),
                left@[left_index as int],
            ),
            result@.len() > 0 && right_index < right@.len() ==> precedes(
                axis,
                result@.last(),
                right@[right_index as int],
            ),
        decreases left@.len() + right@.len() - left_index - right_index,
    {
        let take_left = right_index == right.len() || (left_index < left.len() && comes_before(
            &left[left_index],
            &right[right_index],
            axis,
        ));
        if take_left {
            let p = left[left_index];
            assert(left@.subrange(0, left_index + 1) == left@.subrange(0, left_index as int).push(p));
            let ghost old_result = result@;
            let ghost old_side = side;
            proof {
                side = side.push(true);
            }
            result.push(p);
            assert(result@.drop_last() == old_result);
            assert(side.drop_last() == old_side);
            assert(part_of(result@, side, true) == part_of(old_result, old_side, true).push(p));
            assert(part_of(result@, side, false) == part_of(old_result, old_side, false));
            left_index += 1;
        } else {
            let p = right[right_index];
            assert(right@.subrange(0, right_index + 1) == right@.subrange(0, right_index as int).push(p));
            let ghost old_result = result@;
            let ghost old_side = side;
            proof {
                side = side.push(false);
            }
            result.push(p);
            assert(result@.drop_last() == old_result);
            assert(side.drop_last() == old_side);
            assert(part_of(result@, side, false) == part_of(old_result, old_side, false).push(p));
            assert(part_of(result@, side, true) == part_of(old_result, old_side, true));
            right_index += 1;
        }
    }
    assert(left@.subrange(0, left@.len() as int) == left@);
    assert(right@.subrange(0, right@.len() as int) == right@);
    (result, Ghost(side))
}

/// Sorts `points` along `axis` by merge sort, into a new sequence that holds
/// the same points.
pub fn merge_sort_points(points: &Points, axis: Axis) -> (r: Points)
    ensures
        is_sorted_by(axis, r@),
        r@.to_multiset() == points@.to_multiset(),
    decreases points@.len(),
{
    if points.len() <= 1 {
        return points.clone();
    }
    let mid = points.len() / 2;
    let left_part = copy_range(points, 0, mid);
    let right_part = copy_range(points, mid, points.len());
    let left = merge_sort_points(&left_part, axis);
    let right = merge_sort_points(&right_part, axis);
    proof {
        assert(points@ == left_part@ + right_part@);
        vstd::seq_lib::lemma_multiset_commutative(left_part@, right_part@);
        assert(left@.len() == left@.to_multiset().len());
        assert(left_part@.len() == left_part@.to_multiset().len());
        assert(right@.len() == right@.to_multiset().len());
        assert(right_part@.len() == right_part@.to_multiset().len());
    }
    merge(&left, &right, axis).0
}

/// Sorts `points` by increasing `x`, ties broken by increasing `y`.
pub fn sort_points_by_x(points: &Points) -> (r: Points)
    ensures
        is_sorted_by(Axis::X, r@),
        r@.to_multiset() == points@.to_multiset(),
{
    merge_sort_points(points, Axis::X)
}

/// Sorts `points` by increasing `y`, ties broken by increasing `x`.
pub fn sort_points_by_y(points: &Points) -> (r: Points)
    ensures
        is_sorted_by(Axis::Y, r@),
        r@.to_multiset() == points@.to_multiset(),
{
    merge_sort_points(points, Axis::Y)
}

} // verus!
