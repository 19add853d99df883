//! Putting points in their order round a pivot: by halving and merging,
//! with the turn of three points as the comparison.

use vstd::prelude::*;
use vstd::seq_lib::{lemma_multiset_commutative, to_multiset_build};
use crate::geometry::{lemma_turn_value_is_area, orientation, Orientation};
use crate::hull::{is_sorted_of, lower, precedes, sorted_around};
use crate::hull_proofs::{lemma_precedes_asymmetric, lemma_precedes_total, lemma_precedes_transitive};
use crate::measure::squared_distance;
use crate::point::Point;

verus! {

/// Whether `a` comes strictly before `b` in the order round `o`: by the
/// turn of `o`, `a`, `b`, and for points in line with `o` by their distance.
fn comes_before(o: Point<i32>, a: Point<i32>, b: Point<i32>) -> (r: bool)
    ensures
        r == precedes(o, a, b),
{
    proof {
        lemma_turn_value_is_area(o, a, b);
    }
    match orientation(o, a, b) {
        Orientation::Collinear => squared_distance(o, a) < squared_distance(o, b),
        Orientation::Clockwise => false,
        Orientation::CounterClockwise => true,
    }
}

/// If `a` comes before `b`, and `c` does not come before `b`, then `a` comes before `c`.
proof fn lemma_before_the_later(o: Point<i32>, a: Point<i32>, b: Point<i32>, c: Point<i32>)
    requires
        !lower(a, o),
        !lower(b, o),
        !lower(c, o),
        precedes(o, a, b),
        !precedes(o, c, b),
    ensures
        precedes(o, a, c),
{
    if b != c {
        lemma_precedes_total(o, b, c);
        lemma_precedes_transitive(o, a, b, c);
    }
}

/// If `x` is not after `y` and `y` is not after `z`, then `x` is not after `z`.
proof fn lemma_not_after_chain(o: Point<i32>, x: Point<i32>, y: Point<i32>, z: Point<i32>)
    requires
        !lower(x, o),
        !lower(y, o),
        !lower(z, o),
        !precedes(o, y, x),
        !precedes(o, z, y),
    ensures
        !precedes(o, z, x),
{
    if precedes(o, z, x) {
        lemma_before_the_later(o, z, x, y);
    }
}

/// No point of `s` is lower than `o`.
pub open spec fn none_lower(o: Point<i32>, s: Seq<Point<i32>>) -> bool {
    forall|j: int| 0 <= j < s.len() ==> !lower(#[trigger] s[j], o)
}

/// `x` comes before no point of `s`.
pub open spec fn before_none(o: Point<i32>, x: Point<i32>, s: Seq<Point<i32>>) -> bool {
    forall|k: int| 0 <= k < s.len() ==> !precedes(o, x, #[trigger] s[k])
}

/// Merges two ordered runs of points into one. Of two points that neither
/// comes before the other, the one from `left` goes first.
fn merge(o: Point<i32>, left: &Vec<Point<i32>>, right: &Vec<Point<i32>>) -> (out: Vec<Point<i32>>)
    requires
        sorted_around(o, left@),
        sorted_around(o, right@),
        none_lower(o, left@),
        none_lower(o, right@),
    ensures
        sorted_around(o, out@),
        none_lower(o, out@),
        out@.to_multiset() == left@.to_multiset().add(right@.to_multiset()),
{
    let mut out: Vec<Point<i32>> = Vec::with_capacity(left.len());
    let mut i: usize = 0;
    let mut j: usize = 0;
    proof {
        let none = Seq::<Point<i32>>::empty();
        assert(left@.subrange(0, 0) =~= none);
        assert(right@.subrange(0, 0) =~= none);
        assert(out@ =~= none);
        lemma_multiset_commutative(none, none);
        assert(none + none =~= none);
    }
    while i < left.len() || j < right.len()
        invariant
            i <= left.len(),
            j <= right.len(),
            sorted_around(o, left@),
            sorted_around(o, right@),
            none_lower(o, left@),
            none_lower(o, right@),
            sorted_around(o, out@),
            none_lower(o, out@),
            out@.to_multiset() == left@.subrange(0, i as int).to_multiset().add(
                right@.subrange(0, j as int).to_multiset(),
            ),
            i < left.len() ==> before_none(o, left@[i as int], out@),
            j < right.len() ==> before_none(o, right@[j as int], out@),
        decreases (left.len() - i) + (right.len() - j),
    {
        let from_left = if i == left.len() {
            false
        } else if j == right.len() {
            true
        } else {
            !comes_before(o, right[j], left[i])
        };
        let ghost before = out@;
        if from_left {
            let x = left[i];
            out.push(x);
            proof {
                to_multiset_build(before, x);
                to_multiset_build(left@.subrange(0, i as int), x);
                assert(left@.subrange(0, i + 1) =~= left@.subrange(0, i as int).push(x));
                assert(out@.to_multiset() =~= left@.subrange(0, i + 1).to_multiset().add(
                    right@.subrange(0, j as int).to_multiset(),
                ));
                lemma_pushed_last(o, before, x);
                if i + 1 < left.len() {
                    let next = left@[i + 1];
                    assert(!precedes(o, left@[i + 1], left@[i as int]));
                    lemma_not_before_pushed(o, before, x, next);
                }
                if j < right.len() {
                    lemma_not_before_pushed(o, before, x, right@[j as int]);
                }
            }
            i += 1;
        } else {
            let x = right[j];
            out.push(x);
            proof {
                to_multiset_build(before, x);
                to_multiset_build(right@.subrange(0, j as int), x);
                assert(right@.subrange(0, j + 1) =~= right@.subrange(0, j as int).push(x));
                assert(out@.to_multiset() =~= left@.subrange(0, i as int).to_multiset().add(
                    right@.subrange(0, j + 1).to_multiset(),
                ));
                lemma_pushed_last(o, before, x);
                if j + 1 < right.len() {
                    let next = right@[j + 1];
                    assert(!precedes(o, right@[j + 1], right@[j as int]));
                    lemma_not_before_pushed(o, before, x, next);
                }
                if i < left.len() {
                    lemma_precedes_asymmetric(o, x, left@[i as int]);
                    lemma_not_before_pushed(o, before, x, left@[i as int]);
                }
            }
            j += 1;
        }
    }
    assert(left@.subrange(0, left.len() as int) =~= left@);
    assert(right@.subrange(0, right.len() as int) =~= right@);
    out
}

/// An ordered run stays ordered when a point that comes before none of its
/// points is put at its end.
proof fn lemma_pushed_last(o: Point<i32>, s: Seq<Point<i32>>, x: Point<i32>)
    requires
        sorted_around(o, s),
        none_lower(o, s),
        !lower(x, o),
        before_none(o, x, s),
    ensures
        sorted_around(o, s.push(x)),
        none_lower(o, s.push(x)),
{
    let t = s.push(x);
    assert forall|a: int, b: int| 0 <= a < b < t.len() implies !#[trigger] precedes(o, t[b], t[a]) by {
        if b < s.len() {
            assert(!precedes(o, s[b], s[a]));
        } else {
            assert(!precedes(o, x, s[a]));
        }
    }
    assert forall|k: int| 0 <= k < t.len() implies !lower(#[trigger] t[k], o) by {
        if k < s.len() {
            assert(!lower(s[k], o));
        }
    }
}

/// A point that does not come before `x` comes before none of the run that
/// ends with `x`.
proof fn lemma_not_before_pushed(o: Point<i32>, s: Seq<Point<i32>>, x: Point<i32>, next: Point<i32>)
    requires
        none_lower(o, s),
        !lower(x, o),
        !lower(next, o),
        before_none(o, x, s),
        !precedes(o, next, x),
    ensures
        before_none(o, next, s.push(x)),
{
    let t = s.push(x);
    assert forall|k: int| 0 <= k < t.len() implies !precedes(o, next, #[trigger] t[k]) by {
        if k < s.len() {
            assert(!precedes(o, x, s[k]));
            assert(!lower(s[k], o));
            lemma_not_after_chain(o, s[k], x, next);
        }
    }
}

/// Puts the points of `points` from `lo` up to `hi` in their order round
/// `o`, by halving and merging.
fn sort_range(o: Point<i32>, points: &Vec<Point<i32>>, lo: usize, hi: usize) -> (sorted: Vec<Point<i32>>)
    requires
        lo <= hi <= points.len(),
        none_lower(o, points@),
    ensures
        sorted_around(o, sorted@),
        none_lower(o, sorted@),
        sorted@.to_multiset() == points@.subrange(lo as int, hi as int).to_multiset(),
    decreases hi - lo,
{
    if hi - lo <= 1 {
        let mut sorted: Vec<Point<i32>> = Vec::new();
        if lo < hi {
            sorted.push(points[lo]);
        }
        assert(sorted@ =~= points@.subrange(lo as int, hi as int));
        sorted
    } else {
        let mid = lo + (hi - lo) / 2;
        let left = sort_range(o, points, lo, mid);
        let right = sort_range(o, points, mid, hi);
        proof {
            let a = points@.subrange(lo as int, mid as int);
            let b = points@.subrange(mid as int, hi as int);
            assert(points@.subrange(lo as int, hi as int) =~= a + b);
            lemma_multiset_commutative(a, b);
        }
        merge(o, &left, &right)
    }
}

/// Puts the points of `points` in their order round `o`.
pub(crate) fn sort_around(o: Point<i32>, points: &Vec<Point<i32>>) -> (sorted: Vec<Point<i32>>)
    requires
        forall|j: int| 0 <= j < points.len() ==> !lower(#[trigger] points[j], o),
    ensures
        is_sorted_of(o, points@.to_multiset(), sorted@),
        forall|j: int| 0 <= j < sorted.len() ==> !lower(#[trigger] sorted[j], o),
{
    assert(points@.subrange(0, points.len() as int) =~= points@);
    sort_range(o, points, 0, points.len())
}

} // verus!
