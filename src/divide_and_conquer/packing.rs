//! Why a strip search that looks only a few positions ahead finds every close
//! pair that crosses the dividing line.
use vstd::prelude::*;
use vstd::relations::injective_on;
use vstd::set_lib::{set_int_range, lemma_int_range, lemma_len_subset, lemma_map_size};
use crate::point::{Point, dist2};
use crate::divide_and_conquer::sort_by::{Axis, is_sorted_by, precedes};

verus! {

/// `p` lies less than `sqrt(delta)` away from the vertical line `x == line`.
pub open spec fn in_strip(p: Point, line: int, delta: int) -> bool {
    (p.x - line) * (p.x - line) < delta
}

/// The conditions under which the strip of the combine step is searched: `s` is
/// ordered by `y`, each point lies within `sqrt(delta)` of the line, points marked
/// `true` lie on its left (or on it), points marked `false` on its right (or on
/// it), and two points on one side are never closer than `sqrt(delta)`.
pub open spec fn is_separated_strip(s: Seq<Point>, side: Seq<bool>, line: int, delta: int) -> bool {
    &&& side.len() == s.len()
    &&& is_sorted_by(Axis::Y, s)
    &&& forall|k: int| 0 <= k < s.len() ==> in_strip(#[trigger] s[k], line, delta)
    &&& forall|k: int| 0 <= k < s.len() && #[trigger] side[k] ==> s[k].x <= line
    &&& forall|k: int| 0 <= k < s.len() && !#[trigger] side[k] ==> s[k].x >= line
    &&& forall|k: int, l: int|
        0 <= k < s.len() && 0 <= l < s.len() && k != l && side[k] == side[l] ==> delta
            <= #[trigger] dist2(s[k], s[l])
}

/// From `0 <= u <= v`: `u * u <= v * v`.
proof fn lemma_square_monotone(u: int, v: int)
    requires
        0 <= u <= v,
    ensures
        u * u <= v * v,
{
    assert(u * u <= v * v) by (nonlinear_arith)
        requires
            0 <= u <= v,
    ;
}

/// Two offsets in `[0, sqrt(delta))` that fall in the same half of that
/// interval differ by less than half of `sqrt(delta)`.
proof fn lemma_same_half(a: int, b: int, delta: int)
    requires
        0 <= a,
        0 <= b,
        a * a < delta,
        b * b < delta,
        (4 * (a * a) >= delta) == (4 * (b * b) >= delta),
    ensures
        4 * ((a - b) * (a - b)) < delta,
    decreases (if a < b {
        1int
    } else {
        0int
    }),
{
    if a < b {
        lemma_same_half(b, a, delta);
        assert((a - b) * (a - b) == (b - a) * (b - a)) by (nonlinear_arith);
    } else {
        let u = a - b;
        lemma_square_monotone(u, a);
        if 4 * (a * a) >= delta && 4 * (u * u) >= delta {
            let p = (2 * u) * (2 * b);
            assert(p >= 0) by (nonlinear_arith)
                requires
                    u >= 0,
                    b >= 0,
                    p == (2 * u) * (2 * b),
            ;
            assert(p * p >= delta * delta) by (nonlinear_arith)
                requires
                    p == (2 * u) * (2 * b),
                    4 * (u * u) >= delta,
                    4 * (b * b) >= delta,
                    delta >= 0,
            ;
            if p < delta {
                assert(p * p < delta * delta) by (nonlinear_arith)
                    requires
                        0 <= p < delta,
                ;
            }
            assert(4 * (a * a) == 4 * (u * u) + 2 * p + 4 * (b * b)) by (nonlinear_arith)
                requires
                    u == a - b,
                    p == (2 * u) * (2 * b),
            ;
        }
        assert(4 * ((a - b) * (a - b)) == 4 * (u * u)) by (nonlinear_arith)
            requires
                u == a - b,
        ;
    }
}

/// The cell, one of eight, of point `k` of the strip, relative to the row of
/// height `sqrt(delta)` that starts at height `y0`: its side of the line, the half
/// of the strip on that side, and the half of the row.
spec fn cell(s: Seq<Point>, side: Seq<bool>, line: int, delta: int, y0: int, k: int) -> int {
    (if side[k] {
        0int
    } else {
        4int
    }) + (if 4 * ((s[k].x - line) * (s[k].x - line)) >= delta {
        2int
    } else {
        0int
    }) + (if 4 * ((s[k].y - y0) * (s[k].y - y0)) >= delta {
        1int
    } else {
        0int
    })
}

/// Two points of one cell lie on one side of the line and closer than `sqrt(delta)`.
proof fn lemma_same_cell(s: Seq<Point>, side: Seq<bool>, line: int, delta: int, y0: int, k: int, l: int)
    requires
        is_separated_strip(s, side, line, delta),
        0 <= k < s.len(),
        0 <= l < s.len(),
        y0 <= s[k].y,
        y0 <= s[l].y,
        (s[k].y - y0) * (s[k].y - y0) < delta,
        (s[l].y - y0) * (s[l].y - y0) < delta,
        cell(s, side, line, delta, y0, k) == cell(s, side, line, delta, y0, l),
    ensures
        side[k] == side[l],
        dist2(s[k], s[l]) < delta,
{
    let pk = s[k];
    let pl = s[l];
    assert(in_strip(pk, line, delta));
    assert(in_strip(pl, line, delta));
    assert(side[k] == side[l]);
    if side[k] {
        assert((line - pk.x) * (line - pk.x) == (pk.x - line) * (pk.x - line)) by (nonlinear_arith);
        assert((line - pl.x) * (line - pl.x) == (pl.x - line) * (pl.x - line)) by (nonlinear_arith);
        lemma_same_half(line - pk.x, line - pl.x, delta);
        assert((pk.x - pl.x) * (pk.x - pl.x) == ((line - pk.x) - (line - pl.x)) * ((line - pk.x)
            - (line - pl.x))) by (nonlinear_arith);
    } else {
        lemma_same_half(pk.x - line, pl.x - line, delta);
        assert((pk.x - pl.x) * (pk.x - pl.x) == ((pk.x - line) - (pl.x - line)) * ((pk.x - line)
            - (pl.x - line))) by (nonlinear_arith);
    }
    lemma_same_half(pk.y - y0, pl.y - y0, delta);
    assert((pk.y - pl.y) * (pk.y - pl.y) == ((pk.y - y0) - (pl.y - y0)) * ((pk.y - y0) - (pl.y
        - y0))) by (nonlinear_arith);
}

/// The packing bound: in a separated strip, two points closer than `sqrt(delta)`
/// are at most seven positions apart, since a square of side `sqrt(delta)` on each
/// side of the line holds at most four points of that side.
pub proof fn lemma_strip_packing(s: Seq<Point>, side: Seq<bool>, line: int, delta: int, i: int, j: int)
    requires
        is_separated_strip(s, side, line, delta),
        0 <= i < j < s.len(),
        dist2(s[i], s[j]) < delta,
    ensures
        j - i <= 7,
{
    if j - i > 7 {
        let y0: int = s[i].y as int;
        let dy = s[j].y - y0;
        assert(precedes(Axis::Y, s[i], s[j]));
        assert(dy * dy <= dist2(s[i], s[j])) by (nonlinear_arith)
            requires
                dy == s[j].y - s[i].y,
        ;
        assert forall|k: int| i <= k <= j implies y0 <= #[trigger] s[k].y && (s[k].y - y0) * (
        s[k].y - y0) < delta by {
            if k != i {
                assert(precedes(Axis::Y, s[i], s[k]));
            }
            if k != j {
                assert(precedes(Axis::Y, s[k], s[j]));
            }
            lemma_square_monotone(s[k].y - y0, dy);
        }
        let f = |k: int| cell(s, side, line, delta, y0, k);
        let dom = set_int_range(i, i + 9);
        let cells = set_int_range(0, 8);
        lemma_int_range(i, i + 9);
        lemma_int_range(0, 8);
        assert(dom.map(f).subset_of(cells));
        lemma_len_subset(dom.map(f), cells);
        if injective_on(f, dom) {
            lemma_map_size(dom, dom.map(f), f);
        }
        let (k, l) = choose|k: int, l: int|
            dom.contains(k) && dom.contains(l) && #[trigger] f(k) == #[trigger] f(l) && k != l;
        lemma_same_cell(s, side, line, delta, y0, k, l);
    }
}

} // verus!
