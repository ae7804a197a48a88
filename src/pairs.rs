use vstd::prelude::*;
use vstd::multiset::Multiset;
use crate::point::{Point, dist2};

verus! {

broadcast use vstd::seq_lib::group_to_multiset_ensures, vstd::multiset::group_multiset_axioms;

/// `p` and `q` stand at two different positions of `s`.
pub open spec fn is_pair_in(s: Seq<Point>, p: Point, q: Point) -> bool {
    exists|i: int, j: int|
        0 <= i < s.len() && 0 <= j < s.len() && i != j && #[trigger] s[i] == p && #[trigger] s[j]
            == q
}

/// `(p, q)` is a pair of `s` whose distance no other pair of `s` undercuts.
pub open spec fn is_closest_pair(s: Seq<Point>, p: Point, q: Point) -> bool {
    &&& is_pair_in(s, p, q)
    &&& forall|i: int, j: int|
        0 <= i < s.len() && 0 <= j < s.len() && i != j ==> dist2(p, q) <= #[trigger] dist2(
            s[i],
            s[j],
        )
}

/// `p` and `q` are two members of `m`: `q` is still there once one `p` is taken out.
pub open spec fn holds_pair(m: Multiset<Point>, p: Point, q: Point) -> bool {
    m.count(p) > 0 && m.remove(p).count(q) > 0
}

/// `(p, q)` is a pair of `m` whose distance no other pair of `m` undercuts.
pub open spec fn is_closest_in(m: Multiset<Point>, p: Point, q: Point) -> bool {
    &&& holds_pair(m, p, q)
    &&& forall|a: Point, b: Point| #[trigger] holds_pair(m, a, b) ==> dist2(p, q) <= dist2(a, b)
}

/// Two positions of a sequence give a pair of its multiset, and back.
pub proof fn lemma_pair_in_to_multiset(s: Seq<Point>, p: Point, q: Point)
    ensures
        is_pair_in(s, p, q) <==> holds_pair(s.to_multiset(), p, q),
{
    if is_pair_in(s, p, q) {
        let (i, j) = choose|i: int, j: int|
            0 <= i < s.len() && 0 <= j < s.len() && i != j && #[trigger] s[i] == p && #[trigger] s[j]
                == q;
        assert(s.contains(p));
        let r = s.remove(i);
        assert(r.to_multiset() == s.to_multiset().remove(p));
        if j < i {
            assert(r[j] == q);
        } else {
            assert(r[j - 1] == q);
        }
        assert(r.contains(q));
    }
    if holds_pair(s.to_multiset(), p, q) {
        assert(s.contains(p));
        let i = choose|i: int| 0 <= i < s.len() && s[i] == p;
        let r = s.remove(i);
        assert(r.to_multiset() == s.to_multiset().remove(p));
        assert(r.contains(q));
        let k = choose|k: int| 0 <= k < r.len() && r[k] == q;
        if k < i {
            assert(s[k] == q);
        } else {
            assert(s[k + 1] == q);
        }
    }
}

/// The closest pair of a sequence is the closest pair of its multiset, and back.
pub proof fn lemma_closest_to_multiset(s: Seq<Point>, p: Point, q: Point)
    ensures
        is_closest_pair(s, p, q) <==> is_closest_in(s.to_multiset(), p, q),
{
    lemma_pair_in_to_multiset(s, p, q);
    if is_closest_pair(s, p, q) {
        assert forall|a: Point, b: Point| #[trigger] holds_pair(s.to_multiset(), a, b) implies dist2(
            p,
            q,
        ) <= dist2(a, b) by {
            lemma_pair_in_to_multiset(s, a, b);
            let (i, j) = choose|i: int, j: int|
                0 <= i < s.len() && 0 <= j < s.len() && i != j && #[trigger] s[i] == a
                    && #[trigger] s[j] == b;
            assert(dist2(p, q) <= dist2(s[i], s[j]));
        }
    }
    if is_closest_in(s.to_multiset(), p, q) {
        assert forall|i: int, j: int|
            0 <= i < s.len() && 0 <= j < s.len() && i != j implies dist2(p, q) <= #[trigger] dist2(
                s[i],
                s[j],
            ) by {
            lemma_pair_in_to_multiset(s, s[i], s[j]);
            assert(holds_pair(s.to_multiset(), s[i], s[j]));
        }
    }
}

/// A pair of a multiset is a pair of any multiset that holds it.
pub proof fn lemma_holds_pair_subset(m1: Multiset<Point>, m2: Multiset<Point>, p: Point, q: Point)
    requires
        m1.subset_of(m2),
        holds_pair(m1, p, q),
    ensures
        holds_pair(m2, p, q),
{
    assert(m1.count(p) <= m2.count(p));
    assert(m1.count(q) <= m2.count(q));
}

/// A pair of a sum lies in one part, or takes one point from each.
pub proof fn lemma_holds_pair_add(m1: Multiset<Point>, m2: Multiset<Point>, a: Point, b: Point)
    requires
        holds_pair(m1.add(m2), a, b),
    ensures
        holds_pair(m1, a, b) || holds_pair(m2, a, b) || (m1.count(a) > 0 && m2.count(b) > 0) || (
        m2.count(a) > 0 && m1.count(b) > 0),
{
}

} // verus!
