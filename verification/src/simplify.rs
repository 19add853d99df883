//! The model of polyline simplification after Douglas and Peucker.
//!
//! A range of the curve is measured against its chord, the line through
//! its two ends. The distance of a point from the chord is its offset
//! divided by the chord's length, the offset being twice the area of the
//! triangle of the point and the two ends. Offsets are whole numbers, so
//! the farthest point of a range is found exactly. Only the answer to one
//! question is left to a rule from outside: whether a point at a given
//! offset from a chord of a given squared length is farther from it than
//! the tolerance.

use vstd::prelude::*;
use crate::hull::{area2, dist2};
use crate::hull_proofs::lemma_area_degenerate;
use crate::point::Point;

verus! {

/// The offset of the point at `i` from the chord of the range from `s` to
/// `e`: the distance from the chord times the length of the chord.
pub open spec fn offset(curve: Seq<Point<i32>>, s: int, e: int, i: int) -> int {
    let a = area2(curve[s], curve[e], curve[i]);
    if a >= 0 {
        a
    } else {
        -a
    }
}

/// The place of the first point with the greatest offset among those after
/// `s` and before `k`; `s` itself where none of them is off the chord.
pub open spec fn farthest_upto(curve: Seq<Point<i32>>, s: int, e: int, k: int) -> int
    decreases k - s,
{
    if k <= s + 1 {
        s
    } else {
        let best = farthest_upto(curve, s, e, k - 1);
        if offset(curve, s, e, k - 1) > offset(curve, s, e, best) {
            k - 1
        } else {
            best
        }
    }
}

/// The place of the point strictly inside the range from `s` to `e` that
/// lies farthest from the chord, the first of several; `s` itself where
/// every point of the range lies on the chord.
pub open spec fn farthest(curve: Seq<Point<i32>>, s: int, e: int) -> int {
    farthest_upto(curve, s, e, e)
}

/// The farthest point lies inside the range, no point of the range lies
/// farther, and none before it lies as far.
pub proof fn lemma_farthest_upto(curve: Seq<Point<i32>>, s: int, e: int, k: int)
    ensures
        farthest_upto(curve, s, e, k) == s || s < farthest_upto(curve, s, e, k) < k,
        offset(curve, s, e, s) == 0,
        farthest_upto(curve, s, e, k) > s ==> offset(curve, s, e, farthest_upto(curve, s, e, k)) > 0,
        forall|j: int|
            s < j < k ==> #[trigger] offset(curve, s, e, j) <= offset(
                curve,
                s,
                e,
                farthest_upto(curve, s, e, k),
            ),
        forall|j: int|
            s < j < farthest_upto(curve, s, e, k) ==> #[trigger] offset(curve, s, e, j) < offset(
                curve,
                s,
                e,
                farthest_upto(curve, s, e, k),
            ),
    decreases k - s,
{
    lemma_area_degenerate(curve[s], curve[e]);
    if k > s + 1 {
        lemma_farthest_upto(curve, s, e, k - 1);
    }
}

/// Where the range from `s` to `e` is cut under `rule`: at its farthest
/// point, if that is off the chord and `rule` says of its offset and the
/// squared length of the chord that it is farther than the tolerance.
pub open spec fn cut_under(
    curve: Seq<Point<i32>>,
    rule: spec_fn(int, int) -> bool,
    s: int,
    e: int,
) -> Option<int> {
    let i = farthest(curve, s, e);
    if s < i < e && rule(offset(curve, s, e, i), dist2(curve[s], curve[e])) {
        Some(i)
    } else {
        None
    }
}

/// The places kept of the range from `s` to `e`, without `s` itself: the
/// end alone where the range is not cut, else what is kept of both parts.
pub open spec fn kept_after(curve: Seq<Point<i32>>, rule: spec_fn(int, int) -> bool, s: int, e: int) -> Seq<int>
    decreases e - s,
{
    match cut_under(curve, rule, s, e) {
        Some(i) => kept_after(curve, rule, s, i) + kept_after(curve, rule, i, e),
        None => seq![e],
    }
}

/// The points of `curve` at the places `at`.
pub open spec fn picked(curve: Seq<Point<i32>>, at: Seq<int>) -> Seq<Point<i32>> {
    Seq::new(at.len(), |k: int| curve[at[k]])
}

/// The simplified curve when `after` are the places kept after the first:
/// the points at the places kept, and for a closed curve all of them but
/// the last, which stands for the first.
pub open spec fn simplified_at(curve: Seq<Point<i32>>, closed: bool, after: Seq<int>) -> Seq<Point<i32>> {
    let all = picked(curve, seq![0int] + after);
    if closed {
        all.drop_last()
    } else {
        all
    }
}

/// The simplified curve under `rule`.
pub open spec fn simplified(
    curve: Seq<Point<i32>>,
    closed: bool,
    rule: spec_fn(int, int) -> bool,
) -> Seq<Point<i32>> {
    simplified_at(curve, closed, kept_after(curve, rule, 0, curve.len() - 1))
}

/// `answer` is what `beyond` can say of a point at the offset `num` from a
/// chord of the squared length `den`.
pub open spec fn judges<F: Fn(u128, u128) -> bool>(beyond: F, num: int, den: int, answer: bool) -> bool {
    beyond.ensures((num as u128, den as u128), answer)
}

/// `left` is the beginning of `after`.
pub open spec fn begins(after: Seq<int>, left: Seq<int>) -> bool {
    left.len() <= after.len() && after.subrange(0, left.len() as int) == left
}

/// `after` can be what is kept after `s` of the range from `s` to `e`, with
/// `beyond` answering as it can. The end alone, where every point lies on
/// the chord or `beyond` has said no of the farthest; or, where it has said
/// yes, what can be kept up to the farthest point and then from it on.
pub open spec fn keeps<F: Fn(u128, u128) -> bool>(
    beyond: F,
    curve: Seq<Point<i32>>,
    s: int,
    e: int,
    after: Seq<int>,
) -> bool
    decreases e - s,
{
    let i = farthest(curve, s, e);
    let num = offset(curve, s, e, i);
    let den = dist2(curve[s], curve[e]);
    s < e && (((i == s || judges(beyond, num, den, false)) && after == seq![e]) || (s < i < e
        && judges(beyond, num, den, true) && (exists|left: Seq<int>| #[trigger]
        begins(after, left) && keeps(beyond, curve, s, i, left) && keeps(
            beyond,
            curve,
            i,
            e,
            after.subrange(left.len() as int, after.len() as int),
        ))))
}

/// Whatever `beyond` says, it says what `rule` says.
pub open spec fn judges_by<F: Fn(u128, u128) -> bool>(beyond: F, rule: spec_fn(int, int) -> bool) -> bool {
    forall|num: int, den: int, answer: bool| #[trigger]
        judges(beyond, num, den, answer) ==> answer == rule(num, den)
}

/// Where `beyond` answers by `rule`, what is kept is what is kept under `rule`.
pub proof fn lemma_keeps_by_rule<F: Fn(u128, u128) -> bool>(
    beyond: F,
    rule: spec_fn(int, int) -> bool,
    curve: Seq<Point<i32>>,
    s: int,
    e: int,
    after: Seq<int>,
)
    requires
        judges_by(beyond, rule),
        keeps(beyond, curve, s, e, after),
    ensures
        after == kept_after(curve, rule, s, e),
    decreases e - s,
{
    let i = farthest(curve, s, e);
    let num = offset(curve, s, e, i);
    let den = dist2(curve[s], curve[e]);
    lemma_farthest_upto(curve, s, e, e);
    if (i == s || judges(beyond, num, den, false)) && after == seq![e] {
        assert(cut_under(curve, rule, s, e) is None);
    } else {
        let left = choose|left: Seq<int>| #[trigger]
            begins(after, left) && keeps(beyond, curve, s, i, left) && keeps(
                beyond,
                curve,
                i,
                e,
                after.subrange(left.len() as int, after.len() as int),
            );
        let right = after.subrange(left.len() as int, after.len() as int);
        assert(cut_under(curve, rule, s, e) == Some(i));
        lemma_keeps_by_rule(beyond, rule, curve, s, i, left);
        lemma_keeps_by_rule(beyond, rule, curve, i, e, right);
        assert(after =~= left + right);
    }
}

/// What is kept of a range lies in it and ends with the range's end.
pub proof fn lemma_keeps_the_end<F: Fn(u128, u128) -> bool>(
    beyond: F,
    curve: Seq<Point<i32>>,
    s: int,
    e: int,
    after: Seq<int>,
)
    requires
        keeps(beyond, curve, s, e, after),
    ensures
        after.len() >= 1,
        after.last() == e,
        forall|k: int| 0 <= k < after.len() ==> s < #[trigger] after[k] <= e,
    decreases e - s,
{
    let i = farthest(curve, s, e);
    let num = offset(curve, s, e, i);
    let den = dist2(curve[s], curve[e]);
    if (i == s || judges(beyond, num, den, false)) && after == seq![e] {
    } else {
        let left = choose|left: Seq<int>| #[trigger]
            begins(after, left) && keeps(beyond, curve, s, i, left) && keeps(
                beyond,
                curve,
                i,
                e,
                after.subrange(left.len() as int, after.len() as int),
            );
        let right = after.subrange(left.len() as int, after.len() as int);
        lemma_keeps_the_end(beyond, curve, s, i, left);
        lemma_keeps_the_end(beyond, curve, i, e, right);
        assert forall|k: int| 0 <= k < after.len() implies s < #[trigger] after[k] <= e by {
            if k < left.len() {
                assert(after[k] == left[k]);
            } else {
                assert(after[k] == right[k - left.len()]);
            }
        }
        assert(after.last() == right.last());
    }
}

/// What is kept of a range under a rule lies in it, grows strictly, and
/// ends with the range's end.
pub proof fn lemma_kept_after(curve: Seq<Point<i32>>, rule: spec_fn(int, int) -> bool, s: int, e: int)
    requires
        s < e,
    ensures
        kept_after(curve, rule, s, e).len() >= 1,
        kept_after(curve, rule, s, e).last() == e,
        forall|k: int|
            0 <= k < kept_after(curve, rule, s, e).len() ==> s < #[trigger] kept_after(
                curve,
                rule,
                s,
                e,
            )[k] <= e,
        forall|j: int, k: int|
            0 <= j < k < kept_after(curve, rule, s, e).len() ==> kept_after(curve, rule, s, e)[j]
                < kept_after(curve, rule, s, e)[k],
    decreases e - s,
{
    match cut_under(curve, rule, s, e) {
        Some(i) => {
            lemma_kept_after(curve, rule, s, i);
            lemma_kept_after(curve, rule, i, e);
            let a = kept_after(curve, rule, s, i);
            let b = kept_after(curve, rule, i, e);
            let all = kept_after(curve, rule, s, e);
            assert(all == a + b);
            assert forall|k: int| 0 <= k < all.len() implies s < #[trigger] all[k] <= e by {
                if k < a.len() {
                    assert(all[k] == a[k]);
                } else {
                    assert(all[k] == b[k - a.len()]);
                }
            }
            assert forall|j: int, k: int| 0 <= j < k < all.len() implies all[j] < all[k] by {
                if k < a.len() {
                    assert(all[j] == a[j] && all[k] == a[k]);
                } else if j >= a.len() {
                    assert(all[j] == b[j - a.len()] && all[k] == b[k - a.len()]);
                } else {
                    assert(all[j] == a[j] && all[k] == b[k - a.len()]);
                }
            }
        },
        None => {},
    }
}

/// An open curve keeps its first and its last point, under every rule.
pub proof fn lemma_ends_are_kept(curve: Seq<Point<i32>>, rule: spec_fn(int, int) -> bool)
    requires
        curve.len() >= 2,
    ensures
        simplified(curve, false, rule).len() >= 2,
        simplified(curve, false, rule).first() == curve.first(),
        simplified(curve, false, rule).last() == curve.last(),
{
    lemma_kept_after(curve, rule, 0, curve.len() - 1);
    let after = kept_after(curve, rule, 0, curve.len() - 1);
    assert((seq![0int] + after)[0] == 0);
    assert((seq![0int] + after).last() == after.last());
}

/// `loose` says yes only where `strict` does. This is how the rule of a
/// larger tolerance stands to the rule of a smaller one: what is farther
/// than the larger is farther than the smaller.
pub open spec fn no_stricter(loose: spec_fn(int, int) -> bool, strict: spec_fn(int, int) -> bool) -> bool {
    forall|num: int, den: int| #[trigger] loose(num, den) ==> strict(num, den)
}

/// Of every range, the looser rule keeps no more places.
pub proof fn lemma_looser_rule_keeps_less(
    curve: Seq<Point<i32>>,
    loose: spec_fn(int, int) -> bool,
    strict: spec_fn(int, int) -> bool,
    s: int,
    e: int,
)
    requires
        no_stricter(loose, strict),
        s < e,
    ensures
        kept_after(curve, loose, s, e).len() <= kept_after(curve, strict, s, e).len(),
    decreases e - s,
{
    lemma_kept_after(curve, strict, s, e);
    match cut_under(curve, loose, s, e) {
        Some(i) => {
            assert(loose(offset(curve, s, e, i), dist2(curve[s], curve[e])));
            assert(cut_under(curve, strict, s, e) == Some(i));
            lemma_looser_rule_keeps_less(curve, loose, strict, s, i);
            lemma_looser_rule_keeps_less(curve, loose, strict, i, e);
        },
        None => {},
    }
}

/// The simplified curve has no more points under a larger tolerance than
/// under a smaller one.
pub proof fn lemma_larger_tolerance_keeps_less(
    curve: Seq<Point<i32>>,
    closed: bool,
    loose: spec_fn(int, int) -> bool,
    strict: spec_fn(int, int) -> bool,
)
    requires
        curve.len() >= 2,
        no_stricter(loose, strict),
    ensures
        simplified(curve, closed, loose).len() <= simplified(curve, closed, strict).len(),
{
    lemma_looser_rule_keeps_less(curve, loose, strict, 0, curve.len() - 1);
    lemma_kept_after(curve, loose, 0, curve.len() - 1);
    lemma_kept_after(curve, strict, 0, curve.len() - 1);
}

/// Two simplifications of one curve, the second against a tolerance at
/// least as large as that of the first: the second keeps no more points.
/// The rules say what the two measures answer; what is farther than the
/// larger tolerance is farther than the smaller.
pub proof fn lemma_points_do_not_grow_with_tolerance<F: Fn(u128, u128) -> bool, G: Fn(u128, u128) -> bool>(
    curve: Seq<Point<i32>>,
    closed: bool,
    beyond_smaller: F,
    beyond_larger: G,
    smaller: spec_fn(int, int) -> bool,
    larger: spec_fn(int, int) -> bool,
    kept_smaller: Seq<int>,
    kept_larger: Seq<int>,
)
    requires
        curve.len() >= 2,
        judges_by(beyond_smaller, smaller),
        judges_by(beyond_larger, larger),
        no_stricter(larger, smaller),
        keeps(beyond_smaller, curve, 0, curve.len() - 1, kept_smaller),
        keeps(beyond_larger, curve, 0, curve.len() - 1, kept_larger),
    ensures
        simplified_at(curve, closed, kept_larger).len() <= simplified_at(curve, closed, kept_smaller).len(),
{
    lemma_keeps_by_rule(beyond_smaller, smaller, curve, 0, curve.len() - 1, kept_smaller);
    lemma_keeps_by_rule(beyond_larger, larger, curve, 0, curve.len() - 1, kept_larger);
    lemma_larger_tolerance_keeps_less(curve, closed, larger, smaller);
}

/// `tail` is `first` followed by `others`.
pub open spec fn joins(tail: Seq<int>, first: Seq<int>, others: Seq<int>) -> bool {
    tail == first + others
}

/// `tail` can be what is kept of the ranges still on the stack, the top one first.
pub open spec fn completes<F: Fn(u128, u128) -> bool>(
    beyond: F,
    curve: Seq<Point<i32>>,
    ranges: Seq<(usize, usize)>,
    tail: Seq<int>,
) -> bool
    decreases ranges.len(),
{
    if ranges.len() == 0 {
        tail == Seq::<int>::empty()
    } else {
        let top = ranges.last();
        exists|first: Seq<int>, others: Seq<int>| #[trigger]
            joins(tail, first, others) && keeps(beyond, curve, top.0 as int, top.1 as int, first)
                && completes(beyond, curve, ranges.drop_last(), others)
    }
}

/// Every range in `ranges` is a range of a curve of `n` points, and each
/// begins where the one above it on the stack ends; the lowest ends the curve.
pub open spec fn ranges_in_line(ranges: Seq<(usize, usize)>, from: int, n: int) -> bool
    decreases ranges.len(),
{
    if ranges.len() == 0 {
        from == n - 1
    } else {
        let top = ranges.last();
        &&& top.0 == from
        &&& top.0 < top.1 < n
        &&& ranges_in_line(ranges.drop_last(), top.1 as int, n)
    }
}

/// A bound on the steps that the ranges on the stack still take.
pub open spec fn steps_left(ranges: Seq<(usize, usize)>) -> int
    decreases ranges.len(),
{
    if ranges.len() == 0 {
        0
    } else {
        let top = ranges.last();
        2 * (top.1 - top.0) - 1 + steps_left(ranges.drop_last())
    }
}

/// Ranges in line have no negative number of steps left.
pub proof fn lemma_steps_left(ranges: Seq<(usize, usize)>, from: int, n: int)
    requires
        ranges_in_line(ranges, from, n),
    ensures
        steps_left(ranges) >= 0,
    decreases ranges.len(),
{
    if ranges.len() > 0 {
        lemma_steps_left(ranges.drop_last(), ranges.last().1 as int, n);
    }
}

} // verus!
