use vstd::prelude::*;
use vstd::multiset::Multiset;
use crate::point::{Point, Points, PairOfPoints, dist2, lemma_dist2_basics};
use crate::pairs::{
    holds_pair, is_closest_in, lemma_holds_pair_add, lemma_holds_pair_subset,
    lemma_pair_in_to_multiset, lemma_closest_to_multiset, is_pair_in, is_closest_pair,
};
use crate::divide_and_conquer::sort_by::{
    Axis, is_sorted_by, precedes, part_of, lemma_part_of_contains, lemma_part_of_member,
    lemma_part_of_pair, comes_before,
};
use crate::divide_and_conquer::packing::{in_strip, is_separated_strip, lemma_strip_packing};
use crate::divide_and_conquer::strip::{
    is_window_pair, is_closest_window_pair, find_closest_pair_and_distance_in_strip,
};
use crate::divide_and_conquer::sort_by::{copy_range, merge};

verus! {

broadcast use vstd::seq_lib::group_to_multiset_ensures, vstd::multiset::group_multiset_axioms;

/// How many times `p` occurs in `points`.
fn count_copies(points: &Points, p: &Point) -> (r: usize)
    ensures
        r == points@.to_multiset().count(*p),
{
    let mut c: usize = 0;
    for k in 0..points.len()
        invariant
            c == points@.subrange(0, k as int).to_multiset().count(*p),
            c <= k,
    {
        assert(points@.subrange(0, k + 1) == points@.subrange(0, k as int).push(points@[k as int]));
        if points[k] == *p {
            c += 1;
        }
    }
    assert(points@.subrange(0, points@.len() as int) == points@);
    c
}

/// Whether `p` lies less than `sqrt(delta)` away from the line `x == line`.
fn is_in_strip(p: &Point, line: i32, delta: u128) -> (r: bool)
    ensures
        r == in_strip(*p, line as int, delta as int),
{
    let dx: i128 = p.x as i128 - line as i128;
    assert(0 <= dx * dx <= 0x1_0000_0000_0000_0000) by (nonlinear_arith)
        requires
            -0x1_0000_0000 <= dx <= 0x1_0000_0000,
    ;
    ((dx * dx) as u128) < delta
}

/// The points of a `y`-ordered sequence that lie within `sqrt(delta)` of the line
/// `x == line`, in the same order.
fn points_in_strip(points: &Points, line: i32, delta: u128) -> (r: Points)
    requires
        is_sorted_by(Axis::Y, points@),
    ensures
        is_sorted_by(Axis::Y, r@),
        r@.to_multiset().subset_of(points@.to_multiset()),
        forall|k: int| 0 <= k < r@.len() ==> in_strip(#[trigger] r@[k], line as int, delta as int),
        forall|v: Point|
            points@.contains(v) && in_strip(v, line as int, delta as int) ==> #[trigger] r@.contains(v),
{
    let mut r: Points = Vec::new();
    for k in 0..points.len()
        invariant
            is_sorted_by(Axis::Y, points@),
            is_sorted_by(Axis::Y, r@),
            r@.to_multiset().subset_of(points@.subrange(0, k as int).to_multiset()),
            forall|a: int, b: int|
                0 <= a < r@.len() && k <= b < points@.len() ==> precedes(
                    Axis::Y,
                    #[trigger] r@[a],
                    #[trigger] points@[b],
                ),
            forall|t: int| 0 <= t < r@.len() ==> in_strip(#[trigger] r@[t], line as int, delta as int),
            forall|t: int|
                0 <= t < k && in_strip(points@[t], line as int, delta as int) ==> #[trigger] r@.contains(
                    points@[t],
                ),
    {
        let p = points[k];
        assert(points@.subrange(0, k + 1) == points@.subrange(0, k as int).push(p));
        if is_in_strip(&p, line, delta) {
            let ghost old_r = r@;
            r.push(p);
            assert forall|t: int|
                0 <= t < k + 1 && in_strip(points@[t], line as int, delta as int) implies #[trigger] r@.contains(
                points@[t],
            ) by {
                if t < k {
                    assert(old_r.contains(points@[t]));
                    let u = choose|u: int| 0 <= u < old_r.len() && old_r[u] == points@[t];
                    assert(r@[u] == points@[t]);
                } else {
                    assert(r@[r@.len() - 1] == points@[t]);
                }
            }
        }
    }
    assert(points@.subrange(0, points@.len() as int) == points@);
    assert forall|v: Point|
        points@.contains(v) && in_strip(v, line as int, delta as int) implies #[trigger] r@.contains(v) by {
        let t = choose|t: int| 0 <= t < points@.len() && points@[t] == v;
    }
    r
}

/// Splits a `y`-ordered sequence into the points of the left half and those of
/// the right half of an `x`-ordered split at `pivot`, the first point of the right
/// half, keeping the order of each. Points before `pivot` go left, points after
/// it go right, and of the copies of `pivot` the first `left_copies` go left.
fn split_by_side(sorted_by_y: &Points, pivot: &Point, left_copies: usize) -> (r: (Points, Points))
    requires
        is_sorted_by(Axis::Y, sorted_by_y@),
    ensures
        is_sorted_by(Axis::Y, r.0@),
        is_sorted_by(Axis::Y, r.1@),
        r.0@.to_multiset().add(r.1@.to_multiset()) == sorted_by_y@.to_multiset(),
        forall|k: int| 0 <= k < r.0@.len() ==> precedes(Axis::X, #[trigger] r.0@[k], *pivot),
        forall|k: int| 0 <= k < r.1@.len() ==> precedes(Axis::X, *pivot, #[trigger] r.1@[k]),
        r.0@.to_multiset().count(*pivot) <= left_copies,
        r.0@.to_multiset().count(*pivot) < left_copies ==> r.1@.to_multiset().count(*pivot) == 0,
{
    let sy = sorted_by_y;
    let mut left: Points = Vec::new();
    let mut right: Points = Vec::new();
    let mut taken: usize = 0;
    for k in 0..sy.len()
        invariant
            is_sorted_by(Axis::Y, sy@),
            is_sorted_by(Axis::Y, left@),
            is_sorted_by(Axis::Y, right@),
            left@.to_multiset().add(right@.to_multiset()) == sy@.subrange(0, k as int).to_multiset(),
            forall|a: int, b: int|
                0 <= a < left@.len() && k <= b < sy@.len() ==> precedes(
                    Axis::Y,
                    #[trigger] left@[a],
                    #[trigger] sy@[b],
                ),
            forall|a: int, b: int|
                0 <= a < right@.len() && k <= b < sy@.len() ==> precedes(
                    Axis::Y,
                    #[trigger] right@[a],
                    #[trigger] sy@[b],
                ),
            forall|t: int| 0 <= t < left@.len() ==> precedes(Axis::X, #[trigger] left@[t], *pivot),
            forall|t: int| 0 <= t < right@.len() ==> precedes(Axis::X, *pivot, #[trigger] right@[t]),
            taken == left@.to_multiset().count(*pivot),
            taken <= left_copies,
            taken < left_copies ==> right@.to_multiset().count(*pivot) == 0,
    {
        let p = sy[k];
        assert(sy@.subrange(0, k + 1) == sy@.subrange(0, k as int).push(p));
        let go_left = if p == *pivot {
            taken < left_copies
        } else {
            comes_before(&p, pivot, Axis::X)
        };
        if go_left {
            left.push(p);
            if p == *pivot {
                taken += 1;
            }
        } else {
            right.push(p);
        }
    }
    assert(sy@.subrange(0, sy@.len() as int) == sy@);
    (left, right)
}

/// The left halves of the two orderings hold the same points, and so do the
/// right halves.
proof fn lemma_halves_match(
    sx: Seq<Point>,
    mid: int,
    ly: Seq<Point>,
    ry: Seq<Point>,
    pivot: Point,
    left_copies: int,
)
    requires
        is_sorted_by(Axis::X, sx),
        0 < mid < sx.len(),
        pivot == sx[mid],
        left_copies == sx.subrange(0, mid).to_multiset().count(pivot),
        ly.to_multiset().add(ry.to_multiset()) == sx.to_multiset(),
        forall|k: int| 0 <= k < ly.len() ==> precedes(Axis::X, #[trigger] ly[k], pivot),
        forall|k: int| 0 <= k < ry.len() ==> precedes(Axis::X, pivot, #[trigger] ry[k]),
        ly.to_multiset().count(pivot) <= left_copies,
        ly.to_multiset().count(pivot) < left_copies ==> ry.to_multiset().count(pivot) == 0,
    ensures
        ly.to_multiset() == sx.subrange(0, mid).to_multiset(),
        ry.to_multiset() == sx.subrange(mid, sx.len() as int).to_multiset(),
{
    let lx = sx.subrange(0, mid);
    let rx = sx.subrange(mid, sx.len() as int);
    assert(sx == lx + rx);
    vstd::seq_lib::lemma_multiset_commutative(lx, rx);
    assert(rx[0] == pivot);
    assert(rx.contains(pivot));
    assert forall|v: Point| #[trigger] ly.to_multiset().count(v) == lx.to_multiset().count(v) by {
        let cl = ly.to_multiset().count(v);
        let cr = ry.to_multiset().count(v);
        let cx = lx.to_multiset().count(v);
        let dx = rx.to_multiset().count(v);
        assert(cl + cr == cx + dx) by {
            assert(ly.to_multiset().add(ry.to_multiset()).count(v) == cl + cr);
            assert(lx.to_multiset().add(rx.to_multiset()).count(v) == cx + dx);
        }
        if cx > 0 {
            assert(lx.contains(v));
            let t = choose|t: int| 0 <= t < lx.len() && lx[t] == v;
            assert(sx[t] == v);
            assert(precedes(Axis::X, v, pivot));
        }
        if dx > 0 {
            assert(rx.contains(v));
            let t = choose|t: int| 0 <= t < rx.len() && rx[t] == v;
            assert(sx[mid + t] == v);
            if t > 0 {
                assert(precedes(Axis::X, sx[mid], sx[mid + t]));
            }
            assert(precedes(Axis::X, pivot, v));
        }
        if cl > 0 {
            assert(ly.contains(v));
            let t = choose|t: int| 0 <= t < ly.len() && ly[t] == v;
            assert(precedes(Axis::X, v, pivot));
        }
        if cr > 0 {
            assert(ry.contains(v));
            let t = choose|t: int| 0 <= t < ry.len() && ry[t] == v;
            assert(precedes(Axis::X, pivot, v));
        }
        if v == pivot {
            assert(dx >= 1);
            assert(cx == left_copies);
        } else if precedes(Axis::X, v, pivot) {
            assert(!precedes(Axis::X, pivot, v));
            assert(dx == 0);
            assert(cr == 0);
        } else {
            assert(cx == 0);
            assert(cl == 0);
        }
    }
    assert forall|v: Point| #[trigger] ry.to_multiset().count(v) == rx.to_multiset().count(v) by {
        assert(ly.to_multiset().add(ry.to_multiset()).count(v) == lx.to_multiset().add(rx.to_multiset()).count(v));
        assert(ly.to_multiset().count(v) == lx.to_multiset().count(v));
    }
    assert(ly.to_multiset() =~= lx.to_multiset());
    assert(ry.to_multiset() =~= rx.to_multiset());
}

/// On a strip of at most `STRIP_NEIGHBOURS + 1` points every pair is a window
/// pair, so the closest window pair is the closest pair.
proof fn lemma_short_strip(s: Seq<Point>, p: Point, q: Point)
    requires
        s.len() <= 16,
        is_closest_window_pair(s, p, q),
    ensures
        is_closest_pair(s, p, q),
{
    let (i, j) = choose|i: int, j: int| is_window_pair(s, i, j) && #[trigger] s[i] == p && #[trigger] s[j] == q;
    assert(is_pair_in(s, p, q));
    assert forall|a: int, b: int|
        0 <= a < s.len() && 0 <= b < s.len() && a != b implies dist2(p, q) <= #[trigger] dist2(s[a], s[b]) by {
        if b < a {
            assert(is_window_pair(s, b, a));
            lemma_dist2_basics(s[a], s[b]);
        } else {
            assert(is_window_pair(s, a, b));
        }
    }
}

/// The strip built from the two halves meets the conditions of the packing bound.
proof fn lemma_strip_is_separated(
    strip: Seq<Point>,
    side: Seq<bool>,
    sl: Seq<Point>,
    sr: Seq<Point>,
    ml: Multiset<Point>,
    mr: Multiset<Point>,
    line: int,
    delta: int,
)
    requires
        is_sorted_by(Axis::Y, strip),
        side.len() == strip.len(),
        part_of(strip, side, true) == sl,
        part_of(strip, side, false) == sr,
        forall|k: int| 0 <= k < sl.len() ==> in_strip(#[trigger] sl[k], line, delta),
        forall|k: int| 0 <= k < sr.len() ==> in_strip(#[trigger] sr[k], line, delta),
        sl.to_multiset().subset_of(ml),
        sr.to_multiset().subset_of(mr),
        forall|v: Point| #[trigger] ml.count(v) > 0 ==> v.x <= line,
        forall|v: Point| #[trigger] mr.count(v) > 0 ==> v.x >= line,
        forall|a: Point, b: Point| #[trigger] holds_pair(ml, a, b) ==> delta <= dist2(a, b),
        forall|a: Point, b: Point| #[trigger] holds_pair(mr, a, b) ==> delta <= dist2(a, b),
    ensures
        is_separated_strip(strip, side, line, delta),
{
    assert forall|k: int| 0 <= k < strip.len() implies {
        &&& in_strip(#[trigger] strip[k], line, delta)
        &&& side[k] ==> strip[k].x <= line
        &&& !side[k] ==> strip[k].x >= line
    } by {
        lemma_part_of_contains(strip, side, side[k], k);
        if side[k] {
            let t = choose|t: int| 0 <= t < sl.len() && sl[t] == strip[k];
            assert(sl.to_multiset().count(strip[k]) > 0);
            assert(ml.count(strip[k]) > 0);
        } else {
            let t = choose|t: int| 0 <= t < sr.len() && sr[t] == strip[k];
            assert(sr.to_multiset().count(strip[k]) > 0);
            assert(mr.count(strip[k]) > 0);
        }
    }
    assert forall|k: int, l: int|
        0 <= k < strip.len() && 0 <= l < strip.len() && k != l && side[k] == side[l] implies delta
            <= #[trigger] dist2(strip[k], strip[l]) by {
        lemma_part_of_pair(strip, side, side[k], k, l);
        if side[k] {
            lemma_holds_pair_subset(sl.to_multiset(), ml, strip[k], strip[l]);
        } else {
            lemma_holds_pair_subset(sr.to_multiset(), mr, strip[k], strip[l]);
        }
    }
}

/// A pair that takes one point from each half and is closer than `sqrt(delta)`
/// stands in the strip at positions at most `STRIP_NEIGHBOURS` apart.
proof fn lemma_cross_pair_in_window(
    strip: Seq<Point>,
    side: Seq<bool>,
    sl: Seq<Point>,
    sr: Seq<Point>,
    ml: Multiset<Point>,
    mr: Multiset<Point>,
    line: int,
    delta: int,
    a: Point,
    b: Point,
)
    requires
        is_separated_strip(strip, side, line, delta),
        part_of(strip, side, true) == sl,
        part_of(strip, side, false) == sr,
        forall|v: Point| #[trigger] ml.count(v) > 0 ==> v.x <= line,
        forall|v: Point| #[trigger] mr.count(v) > 0 ==> v.x >= line,
        forall|v: Point| ml.count(v) > 0 && in_strip(v, line, delta) ==> #[trigger] sl.contains(v),
        forall|v: Point| mr.count(v) > 0 && in_strip(v, line, delta) ==> #[trigger] sr.contains(v),
        ml.count(a) > 0,
        mr.count(b) > 0,
        dist2(a, b) < delta,
    ensures
        exists|i: int, j: int|
            is_window_pair(strip, i, j) && #[trigger] dist2(strip[i], strip[j]) == dist2(a, b),
{
    assert(a.x <= line);
    assert(b.x >= line);
    assert((b.x - a.x) * (b.x - a.x) <= dist2(a, b)) by (nonlinear_arith)
        requires
            dist2(a, b) == (a.x - b.x) * (a.x - b.x) + (a.y - b.y) * (a.y - b.y),
    ;
    assert((a.x - line) * (a.x - line) <= (b.x - a.x) * (b.x - a.x)) by (nonlinear_arith)
        requires
            a.x <= line <= b.x,
    ;
    assert((b.x - line) * (b.x - line) <= (b.x - a.x) * (b.x - a.x)) by (nonlinear_arith)
        requires
            a.x <= line <= b.x,
    ;
    assert(sl.contains(a));
    assert(sr.contains(b));
    lemma_part_of_member(strip, side, true, a);
    lemma_part_of_member(strip, side, false, b);
    let k = choose|k: int| 0 <= k < strip.len() && side[k] == true && #[trigger] strip[k] == a;
    let l = choose|l: int| 0 <= l < strip.len() && side[l] == false && #[trigger] strip[l] == b;
    lemma_dist2_basics(a, b);
    if k < l {
        lemma_strip_packing(strip, side, line, delta, k, l);
        assert(is_window_pair(strip, k, l));
    } else {
        lemma_strip_packing(strip, side, line, delta, l, k);
        assert(is_window_pair(strip, l, k));
    }
}

/// Every pair of the whole set that is closer than `sqrt(delta)` has its
/// distance realised by a window pair of the strip.
proof fn lemma_close_pairs_in_window(
    strip: Seq<Point>,
    side: Seq<bool>,
    sl: Seq<Point>,
    sr: Seq<Point>,
    ml: Multiset<Point>,
    mr: Multiset<Point>,
    line: int,
    delta: int,
)
    requires
        is_separated_strip(strip, side, line, delta),
        part_of(strip, side, true) == sl,
        part_of(strip, side, false) == sr,
        forall|v: Point| #[trigger] ml.count(v) > 0 ==> v.x <= line,
        forall|v: Point| #[trigger] mr.count(v) > 0 ==> v.x >= line,
        forall|v: Point| ml.count(v) > 0 && in_strip(v, line, delta) ==> #[trigger] sl.contains(v),
        forall|v: Point| mr.count(v) > 0 && in_strip(v, line, delta) ==> #[trigger] sr.contains(v),
        forall|a: Point, b: Point| #[trigger] holds_pair(ml, a, b) ==> delta <= dist2(a, b),
        forall|a: Point, b: Point| #[trigger] holds_pair(mr, a, b) ==> delta <= dist2(a, b),
    ensures
        forall|a: Point, b: Point|
            #[trigger] holds_pair(ml.add(mr), a, b) && dist2(a, b) < delta ==> exists|i: int, j: int|
                is_window_pair(strip, i, j) && #[trigger] dist2(strip[i], strip[j]) == dist2(a, b),
{
    assert forall|a: Point, b: Point|
        #[trigger] holds_pair(ml.add(mr), a, b) && dist2(a, b) < delta implies exists|i: int, j: int|
            is_window_pair(strip, i, j) && #[trigger] dist2(strip[i], strip[j]) == dist2(a, b) by {
        lemma_holds_pair_add(ml, mr, a, b);
        lemma_dist2_basics(a, b);
        if ml.count(a) > 0 && mr.count(b) > 0 {
            lemma_cross_pair_in_window(strip, side, sl, sr, ml, mr, line, delta, a, b);
        } else {
            lemma_cross_pair_in_window(strip, side, sl, sr, ml, mr, line, delta, b, a);
        }
    }
}

/// Finds the closest pair of a point set given in two orderings, by `x` and by
/// `y`, by divide and conquer. Sets of at most three points are searched
/// directly; larger ones are split at the middle position of the `x`-ordering,
/// each half is solved, and a strip around the dividing line is searched for a
/// pair across it that is closer still. On a tie between the halves the pair of
/// the left half is kept.
pub fn closest_pair_recursive(sorted_by_x: &Points, sorted_by_y: &Points) -> (r: Option<
    PairOfPoints,
>)
    requires
        is_sorted_by(Axis::X, sorted_by_x@),
        is_sorted_by(Axis::Y, sorted_by_y@),
        sorted_by_x@.to_multiset() == sorted_by_y@.to_multiset(),
    ensures
        r is None <==> sorted_by_x@.len() < 2,
        r matches Some((p, q)) ==> is_closest_in(sorted_by_x@.to_multiset(), p, q),
    decreases sorted_by_x@.len(),
{
    let n = sorted_by_x.len();
    assert(sorted_by_y@.len() == sorted_by_y@.to_multiset().len());
    assert(sorted_by_x@.len() == sorted_by_x@.to_multiset().len());
    if n <= 3 {
        match find_closest_pair_and_distance_in_strip(sorted_by_y) {
            Some((_, pair)) => {
                proof {
                    lemma_short_strip(sorted_by_y@, pair.0, pair.1);
                    lemma_closest_to_multiset(sorted_by_y@, pair.0, pair.1);
                }
                return Some(pair);
            },
            None => {
                return None;
            },
        }
    }
    // Divide at the middle position of the x-ordering.

    let mid = n / 2;
    let left_x = copy_range(sorted_by_x, 0, mid);
    let right_x = copy_range(sorted_by_x, mid, n);
    let pivot = sorted_by_x[mid];
    let left_copies = count_copies(&left_x, &pivot);
    let (left_y, right_y) = split_by_side(sorted_by_y, &pivot, left_copies);
    let ghost ml = left_x@.to_multiset();
    let ghost mr = right_x@.to_multiset();
    let ghost m = sorted_by_x@.to_multiset();
    proof {
        lemma_halves_match(sorted_by_x@, mid as int, left_y@, right_y@, pivot, left_copies as int);
        assert(sorted_by_x@ == left_x@ + right_x@);
        vstd::seq_lib::lemma_multiset_commutative(left_x@, right_x@);
        assert(is_sorted_by(Axis::X, left_x@));
        assert(is_sorted_by(Axis::X, right_x@));
        assert(left_x@.len() == ml.len());
        assert(right_x@.len() == mr.len());
        assert(left_y@.len() == left_y@.to_multiset().len());
        assert(right_y@.len() == right_y@.to_multiset().len());
    }
    // Conquer each half.

    let (q0, q1) = match closest_pair_recursive(&left_x, &left_y) {
        Some(pair) => pair,
        None => {
            return None;
        },
    };
    let (r0, r1) = match closest_pair_recursive(&right_x, &right_y) {
        Some(pair) => pair,
        None => {
            return None;
        },
    };
    let delta_left_half = q0.squared_distance(&q1);
    let delta_right_half = r0.squared_distance(&r1);
    let (delta_minimum, closest_pair) = if delta_left_half <= delta_right_half {
        (delta_left_half, (q0, q1))
    } else {
        (delta_right_half, (r0, r1))
    };
    let ghost delta = delta_minimum as int;
    let line = pivot.x;
    proof {
        assert forall|v: Point| #[trigger] ml.count(v) > 0 implies v.x <= line by {
            assert(left_x@.contains(v));
            let t = choose|t: int| 0 <= t < left_x@.len() && left_x@[t] == v;
            assert(sorted_by_x@[t] == v);
            assert(precedes(Axis::X, sorted_by_x@[t], sorted_by_x@[mid as int]));
        }
        assert forall|v: Point| #[trigger] mr.count(v) > 0 implies v.x >= line by {
            assert(right_x@.contains(v));
            let t = choose|t: int| 0 <= t < right_x@.len() && right_x@[t] == v;
            assert(sorted_by_x@[mid + t] == v);
            if t > 0 {
                assert(precedes(Axis::X, sorted_by_x@[mid as int], sorted_by_x@[mid + t]));
            }
        }
        assert(forall|a: Point, b: Point| #[trigger] holds_pair(ml, a, b) ==> delta <= dist2(a, b));
        assert(forall|a: Point, b: Point| #[trigger] holds_pair(mr, a, b) ==> delta <= dist2(a, b));
    }
    // Combine: search the strip around the dividing line.

    let strip_left = points_in_strip(&left_y, line, delta_minimum);
    let strip_right = points_in_strip(&right_y, line, delta_minimum);
    proof {
        assert(strip_left@.len() == strip_left@.to_multiset().len());
        assert(strip_right@.len() == strip_right@.to_multiset().len());
        assert(left_y@.to_multiset().sub(strip_left@.to_multiset()).len() == left_y@.len()
            - strip_left@.len());
        assert(right_y@.to_multiset().sub(strip_right@.to_multiset()).len() == right_y@.len()
            - strip_right@.len());
    }
    let (strip, Ghost(side)) = merge(&strip_left, &strip_right, Axis::Y);
    proof {
        lemma_strip_is_separated(
            strip@,
            side,
            strip_left@,
            strip_right@,
            ml,
            mr,
            line as int,
            delta,
        );
        assert forall|v: Point| ml.count(v) > 0 && in_strip(v, line as int, delta) implies
            #[trigger] strip_left@.contains(v) by {
            assert(left_y@.contains(v));
        }
        assert forall|v: Point| mr.count(v) > 0 && in_strip(v, line as int, delta) implies
            #[trigger] strip_right@.contains(v) by {
            assert(right_y@.contains(v));
        }
        lemma_close_pairs_in_window(
            strip@,
            side,
            strip_left@,
            strip_right@,
            ml,
            mr,
            line as int,
            delta,
        );
    }
    let found = find_closest_pair_and_distance_in_strip(&strip);
    if let Some((min_distance_of_strip, closest_pair_of_strip)) = found {
        if min_distance_of_strip < delta_minimum {
            proof {
                let (sp, sq) = closest_pair_of_strip;
                let (i, j) = choose|i: int, j: int|
                    is_window_pair(strip@, i, j) && #[trigger] strip@[i] == sp && #[trigger] strip@[j]
                        == sq;
                assert(is_pair_in(strip@, sp, sq));
                lemma_pair_in_to_multiset(strip@, sp, sq);
                assert(strip@.to_multiset().subset_of(m));
                lemma_holds_pair_subset(strip@.to_multiset(), m, sp, sq);
                assert forall|a: Point, b: Point| #[trigger] holds_pair(m, a, b) implies dist2(sp, sq)
                    <= dist2(a, b) by {
                    lemma_holds_pair_add(ml, mr, a, b);
                }
            }
            return Some(closest_pair_of_strip);
        }
    }
    proof {
        let (bp, bq) = closest_pair;
        if delta_left_half <= delta_right_half {
            lemma_holds_pair_subset(ml, m, bp, bq);
        } else {
            lemma_holds_pair_subset(mr, m, bp, bq);
        }
        assert forall|a: Point, b: Point| #[trigger] holds_pair(m, a, b) implies delta <= dist2(a, b) by {
            if dist2(a, b) < delta {
                let (i, j) = choose|i: int, j: int|
                    is_window_pair(strip@, i, j) && #[trigger] dist2(strip@[i], strip@[j]) == dist2(
                        a,
                        b,
                    );
            }
        }
    }
    Some(closest_pair)
}

} // verus!
