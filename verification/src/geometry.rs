//! Computational geometry over integer points, for example finding convex hulls.

use vstd::prelude::*;
use vstd::seq_lib::{to_multiset_contains, to_multiset_remove};
use vstd::slice::slice_to_vec;
use crate::angular_sort::sort_around;
use crate::hull::{
    all_left_of, area2, dist2, encloses, encloses_all, ends_ray, hull_of, is_pivot, left_turn, lower,
    next_index, no_right_turn, on_segment, ray_ends, ray_ends_upto, scan, scan_upto, spans,
    strictly_convex, unwind,
};
use crate::hull_proofs::{
    lemma_area_degenerate, lemma_enclosing_what_spans, lemma_pivot_found, lemma_scan_of_sorted,
    lemma_sorted_found,
};
use crate::measure::{signed_area, squared_distance};
use crate::plane::lemma_zero_vector;
use crate::point::Point;
use crate::simplify::{
    begins, completes, farthest, farthest_upto, joins, judges, keeps, lemma_farthest_upto,
    lemma_keeps_the_end, lemma_steps_left, offset, picked, ranges_in_line, simplified_at, steps_left,
};

verus! {

/// The turn made by three points taken in order.
#[derive(Debug, Copy, Clone, PartialEq, Eq, Structural)]
pub enum Orientation {
    /// The three points lie on one line.
    Collinear,
    /// The path turns right.
    Clockwise,
    /// The path turns left.
    CounterClockwise,
}

/// The number whose sign tells the turn at `q` on the way from `p` to `r`.
pub open spec fn turn_value(p: Point<i32>, q: Point<i32>, r: Point<i32>) -> int {
    (q.y - p.y) * (r.x - q.x) - (q.x - p.x) * (r.y - q.y)
}

/// The turn of `p`, `q`, `r` as the sign of `turn_value` gives it.
pub open spec fn orientation_of(p: Point<i32>, q: Point<i32>, r: Point<i32>) -> Orientation {
    let val = turn_value(p, q, r);
    if val == 0 {
        Orientation::Collinear
    } else if val > 0 {
        Orientation::Clockwise
    } else {
        Orientation::CounterClockwise
    }
}

/// The turn value is the signed area of the triangle, negated.
pub proof fn lemma_turn_value_is_area(p: Point<i32>, q: Point<i32>, r: Point<i32>)
    ensures
        turn_value(p, q, r) == -area2(p, q, r),
{
    let ux = q.x - p.x;
    let uy = q.y - p.y;
    let vx = r.x - p.x;
    let vy = r.y - p.y;
    assert(r.x - q.x == vx - ux);
    assert(r.y - q.y == vy - uy);
    assert(uy * (vx - ux) - ux * (vy - uy) == -(ux * vy - uy * vx)) by (nonlinear_arith);
}

/// The turn of three points is counter-clockwise where their triangle has a
/// positive signed area, clockwise where it has a negative one, and none
/// where it has no area.
pub proof fn lemma_orientation_by_area(p: Point<i32>, q: Point<i32>, r: Point<i32>)
    ensures
        orientation_of(p, q, r) == Orientation::CounterClockwise <==> area2(p, q, r) > 0,
        orientation_of(p, q, r) == Orientation::Clockwise <==> area2(p, q, r) < 0,
        orientation_of(p, q, r) == Orientation::Collinear <==> area2(p, q, r) == 0,
{
    lemma_turn_value_is_area(p, q, r);
}

/// Every three consecutive vertices of the closed polygon `h`, the last
/// being followed by the first, turn counter-clockwise; or `h` has fewer
/// than three vertices.
pub open spec fn turns_left_all_round(h: Seq<Point<i32>>) -> bool {
    h.len() >= 3 ==> forall|i: int|
        0 <= i < h.len() ==> orientation_of(
            #[trigger] h[i],
            h[next_index(h, i)],
            h[next_index(h, next_index(h, i))],
        ) == Orientation::CounterClockwise
}

/// A strictly convex polygon turns counter-clockwise at every vertex.
pub proof fn lemma_convex_turns_left(h: Seq<Point<i32>>)
    requires
        strictly_convex(h),
    ensures
        turns_left_all_round(h),
{
    if h.len() >= 3 {
        assert forall|i: int| 0 <= i < h.len() implies orientation_of(
            #[trigger] h[i],
            h[next_index(h, i)],
            h[next_index(h, next_index(h, i))],
        ) == Orientation::CounterClockwise by {
            assert(left_turn(h[i], h[next_index(h, i)], h[next_index(h, next_index(h, i))]));
            lemma_orientation_by_area(h[i], h[next_index(h, i)], h[next_index(h, next_index(h, i))]);
        }
    }
}

/// Tells whether the path `p`, `q`, `r` turns left, turns right or goes straight on.
///
/// The products are taken in 128 bits, so the answer is exact for all coordinates.
pub fn orientation(p: Point<i32>, q: Point<i32>, r: Point<i32>) -> (o: Orientation)
    ensures
        o == orientation_of(p, q, r),
{
    let a: i128 = q.y as i128 - p.y as i128;
    let b: i128 = r.x as i128 - q.x as i128;
    let c: i128 = q.x as i128 - p.x as i128;
    let d: i128 = r.y as i128 - q.y as i128;
    assert(-0x1_0000_0000_0000_0000 <= a * b <= 0x1_0000_0000_0000_0000) by (nonlinear_arith)
        requires
            -0x1_0000_0000 <= a <= 0x1_0000_0000,
            -0x1_0000_0000 <= b <= 0x1_0000_0000,
    ;
    assert(-0x1_0000_0000_0000_0000 <= c * d <= 0x1_0000_0000_0000_0000) by (nonlinear_arith)
        requires
            -0x1_0000_0000 <= c <= 0x1_0000_0000,
            -0x1_0000_0000 <= d <= 0x1_0000_0000,
    ;
    let val: i128 = a * b - c * d;
    if val == 0 {
        Orientation::Collinear
    } else if val > 0 {
        Orientation::Clockwise
    } else {
        Orientation::CounterClockwise
    }
}

/// Whether the path `a`, `b`, `c` turns counter-clockwise.
fn turns_left(a: Point<i32>, b: Point<i32>, c: Point<i32>) -> (r: bool)
    ensures
        r == (area2(a, b, c) > 0),
{
    proof {
        lemma_turn_value_is_area(a, b, c);
    }
    match orientation(a, b, c) {
        Orientation::CounterClockwise => true,
        _ => false,
    }
}

/// The place of the lowest point of `points`: the first one with the least
/// `y` and, among those, the least `x`.
fn lowest_point(points: &Vec<Point<i32>>) -> (pos: usize)
    requires
        points.len() > 0,
    ensures
        pos < points.len(),
        forall|i: int| 0 <= i < points.len() ==> !lower(#[trigger] points[i], points[pos as int]),
{
    let mut pos: usize = 0;
    let mut i: usize = 1;
    while i < points.len()
        invariant
            pos < i <= points.len(),
            forall|j: int| 0 <= j < i ==> !lower(#[trigger] points[j], points[pos as int]),
        decreases points.len() - i,
    {
        let point = points[i];
        let start_point = points[pos];
        if point.y < start_point.y || point.y == start_point.y && point.x < start_point.x {
            pos = i;
        }
        i += 1;
    }
    pos
}

/// Keeps of each run of points in line with `o` the last one, which is the farthest.
fn farthest_per_ray(o: Point<i32>, sorted: &Vec<Point<i32>>) -> (ends: Vec<Point<i32>>)
    ensures
        ends@ == ray_ends(o, sorted@),
{
    let mut ends: Vec<Point<i32>> = Vec::with_capacity(sorted.len());
    let mut i: usize = 0;
    while i < sorted.len()
        invariant
            i <= sorted.len(),
            ends@ == ray_ends_upto(o, sorted@, i as nat),
        decreases sorted.len() - i,
    {
        let last_of_ray = if i + 1 == sorted.len() {
            true
        } else {
            proof {
                lemma_turn_value_is_area(o, sorted[i as int], sorted[i + 1]);
            }
            match orientation(o, sorted[i], sorted[i + 1]) {
                Orientation::Collinear => false,
                _ => true,
            }
        };
        assert(last_of_ray == ends_ray(o, sorted@, i as int));
        if last_of_ray {
            ends.push(sorted[i]);
        }
        i += 1;
    }
    ends
}

/// The scan: each candidate in turn takes off the stack every point at
/// which the path to it does not turn counter-clockwise, and is put on top.
fn graham_scan(o: Point<i32>, candidates: &Vec<Point<i32>>) -> (stack: Vec<Point<i32>>)
    ensures
        stack@ == scan(o, candidates@),
{
    let mut stack: Vec<Point<i32>> = Vec::with_capacity(candidates.len() / 2 + 1);
    stack.push(o);
    assert(stack@ =~= seq![o]);
    let mut k: usize = 0;
    while k < candidates.len()
        invariant
            k <= candidates.len(),
            stack@ == scan_upto(o, candidates@, k as nat),
        decreases candidates.len() - k,
    {
        let p = candidates[k];
        let ghost before = stack@;
        while stack.len() > 1 && !turns_left(stack[stack.len() - 2], stack[stack.len() - 1], p)
            invariant
                unwind(stack@, p) == unwind(before, p),
            decreases stack.len(),
        {
            assert(stack@.drop_last() =~= stack@.subrange(0, stack.len() - 1));
            stack.pop();
        }
        assert(unwind(stack@, p) == stack@);
        stack.push(p);
        k += 1;
    }
    stack
}

/// Finds the convex hull of a set of points, using the Graham scan.
///
/// The hull starts at the lowest point (the least `y`, then the least `x`)
/// and runs counter-clockwise through the corners only: points inside the
/// hull or along its edges are left out. One point gives itself; points
/// that all lie on one line give the lowest point and the one farthest from it.
/// The result depends on which points are given and how often, not on their order.
pub fn convex_hull(points_slice: &[Point<i32>]) -> (hull: Vec<Point<i32>>)
    ensures
        hull@ == hull_of(points_slice@.to_multiset()),
        hull.len() == 0 <==> points_slice@.len() == 0,
        hull.len() > 0 ==> is_pivot(points_slice@.to_multiset(), hull[0]),
        forall|i: int| 0 <= i < hull.len() ==> points_slice@.contains(#[trigger] hull[i]),
        strictly_convex(hull@),
        turns_left_all_round(hull@),
        encloses_all(hull@, points_slice@),
        spans(hull@, points_slice@),
{
    let ghost m = points_slice@.to_multiset();
    proof {
        points_slice@.to_multiset_ensures();
    }
    if points_slice.len() == 0 {
        return Vec::new();
    }
    let mut points: Vec<Point<i32>> = slice_to_vec(points_slice);
    let start_point_pos = lowest_point(&points);
    let start_point = points.remove(start_point_pos);
    proof {
        to_multiset_remove(points_slice@, start_point_pos as int);
        assert forall|q: Point<i32>| m.contains(q) implies !lower(q, start_point) by {
            to_multiset_contains(points_slice@, q);
            let j = choose|j: int| 0 <= j < points_slice@.len() && points_slice@[j] == q;
            assert(!lower(points_slice@[j], start_point));
        }
        to_multiset_contains(points_slice@, start_point);
        assert(points_slice@.contains(start_point));
        lemma_pivot_found(m, start_point);
        assert forall|j: int| 0 <= j < points.len() implies !lower(#[trigger] points[j], start_point) by {
            let j0 = if j < start_point_pos { j } else { j + 1 };
            assert(points[j] == points_slice@[j0]);
        }
    }
    let sorted = sort_around(start_point, &points);
    let ends = farthest_per_ray(start_point, &sorted);
    let hull = graham_scan(start_point, &ends);
    proof {
        lemma_sorted_found(start_point, m.remove(start_point), sorted@);
        lemma_scan_of_sorted(start_point, sorted@);
        assert forall|i: int| 0 <= i < hull.len() implies points_slice@.contains(#[trigger] hull[i]) by {
            if i > 0 {
                assert(sorted@.contains(hull[i]));
                to_multiset_contains(sorted@, hull[i]);
                to_multiset_contains(points_slice@, hull[i]);
            }
        }
        lemma_convex_turns_left(hull@);
        assert forall|i: int| 0 <= i < points_slice@.len() implies encloses(
            hull@,
            #[trigger] points_slice@[i],
        ) by {
            let q = points_slice@[i];
            if q != start_point {
                assert(points_slice@.contains(q));
                to_multiset_contains(points_slice@, q);
                to_multiset_contains(sorted@, q);
                let j = choose|j: int| 0 <= j < sorted@.len() && sorted@[j] == q;
                assert(encloses(hull@, sorted@[j]));
            }
        }
        assert forall|e1: Point<i32>, e2: Point<i32>| #[trigger]
            all_left_of(e1, e2, hull@) implies all_left_of(e1, e2, points_slice@) by {
            assert(all_left_of(e1, e2, sorted@));
            assert forall|i: int| 0 <= i < points_slice@.len() implies no_right_turn(
                e1,
                e2,
                #[trigger] points_slice@[i],
            ) by {
                let q = points_slice@[i];
                if q != start_point {
                    assert(points_slice@.contains(q));
                    to_multiset_contains(points_slice@, q);
                    to_multiset_contains(sorted@, q);
                    let j = choose|j: int| 0 <= j < sorted@.len() && sorted@[j] == q;
                    assert(no_right_turn(e1, e2, sorted@[j]));
                } else {
                    assert(no_right_turn(e1, e2, hull@[0]));
                }
            }
        }
    }
    hull
}

/// Finds the point strictly inside the range from `s` to `e` that lies
/// farthest from the chord, the first of several, and its offset. Where
/// every point lies on the chord, the answer is `s` and no offset.
pub fn farthest_from_chord(curve: &[Point<i32>], s: usize, e: usize) -> (found: (usize, u128))
    requires
        s < e < curve@.len(),
    ensures
        found.0 == farthest(curve@, s as int, e as int),
        found.1 == offset(curve@, s as int, e as int, found.0 as int),
        found.0 == s || s < found.0 < e,
        found.0 == s <==> found.1 == 0,
{
    let mut index: usize = s;
    let mut dmax: u128 = 0;
    let mut i: usize = s + 1;
    proof {
        lemma_farthest_upto(curve@, s as int, e as int, s + 1);
    }
    while i < e
        invariant
            s < i <= e < curve@.len(),
            index == farthest_upto(curve@, s as int, e as int, i as int),
            dmax == offset(curve@, s as int, e as int, index as int),
        decreases e - i,
    {
        let area = signed_area(curve[s], curve[e], curve[i]);
        let d: u128 = if area >= 0 { area as u128 } else { (-area) as u128 };
        if d > dmax {
            index = i;
            dmax = d;
        }
        i += 1;
    }
    proof {
        lemma_farthest_upto(curve@, s as int, e as int, e as int);
    }
    (index, dmax)
}

/// Fits the polygon curve to a similar curve with fewer points, after
/// Douglas and Peucker.
///
/// Each range of the curve, the whole curve first, is measured against its
/// chord, the line through its two ends. The point strictly inside the
/// range that lies farthest from the chord is found, the first of several.
/// Its distance from the chord is its offset (twice the area of the
/// triangle that it makes with the two ends) divided by the length of the
/// chord; `beyond` is given the offset and the squared length of the chord,
/// neither of them zero, and says whether that distance is greater than the
/// tolerance. Where it
/// is, the range is cut at that point and both parts are treated alike;
/// where it is not, or every point lies on the chord, the range is replaced
/// by its two ends. The ranges wait on a stack of their own, so a long
/// curve does not deepen the call stack. A closed curve loses its last
/// point, which stands for the first.
pub fn approx_poly_dp<F>(curve: &[Point<i32>], closed: bool, beyond: F) -> (res: Vec<Point<i32>>) where
    F: Fn(u128, u128) -> bool,

    requires
        curve@.len() >= 2,
        forall|num: u128, den: u128| num > 0 && den > 0 ==> #[trigger] beyond.requires((num, den)),
    ensures
        exists|after: Seq<int>| #[trigger]
            keeps(beyond, curve@, 0, curve@.len() - 1, after) && res@ == simplified_at(
                curve@,
                closed,
                after,
            ),
        !closed ==> res@.len() >= 2 && res@.first() == curve@.first() && res@.last() == curve@.last(),
{
    let ghost n = curve@.len() as int;
    let end = curve.len() - 1;
    let mut res: Vec<Point<i32>> = Vec::new();
    res.push(curve[0]);
    let mut ranges: Vec<(usize, usize)> = Vec::new();
    ranges.push((0, end));
    let ghost mut after: Seq<int> = Seq::empty();
    proof {
        assert(ranges@.drop_last() =~= Seq::empty());
        assert(ranges_in_line(ranges@.drop_last(), end as int, n));
        assert(res@ =~= picked(curve@, seq![0int] + after));
        assert forall|tail: Seq<int>| #[trigger]
            completes(beyond, curve@, ranges@, tail) implies keeps(
            beyond,
            curve@,
            0,
            end as int,
            after + tail,
        ) by {
            let (first, others) = choose|first: Seq<int>, others: Seq<int>| #[trigger]
                joins(tail, first, others) && keeps(beyond, curve@, 0, end as int, first) && completes(
                    beyond,
                    curve@,
                    ranges@.drop_last(),
                    others,
                );
            assert(after + tail =~= first);
        }
    }
    while ranges.len() > 0
        invariant
            n == curve@.len(),
            n >= 2,
            end == n - 1,
            forall|num: u128, den: u128| num > 0 && den > 0 ==> #[trigger] beyond.requires((num, den)),
            0 <= (seq![0int] + after).last() < n,
            ranges_in_line(ranges@, (seq![0int] + after).last(), n),
            forall|tail: Seq<int>| #[trigger]
                completes(beyond, curve@, ranges@, tail) ==> keeps(
                    beyond,
                    curve@,
                    0,
                    end as int,
                    after + tail,
                ),
            res@ == picked(curve@, seq![0int] + after),
        decreases steps_left(ranges@),
    {
        let ghost above = ranges@;
        let (s, e) = ranges.pop().unwrap();
        let ghost below = ranges@;
        assert(below == above.drop_last());
        assert(above.last() == (s, e));
        proof {
            lemma_steps_left(below, e as int, n);
        }
        let (i, num) = farthest_from_chord(curve, s, e);
        let ghost den = dist2(curve@[s as int], curve@[e as int]);
        proof {
            // a point off the chord shows that the chord has a length
            if i > s {
                lemma_area_degenerate(curve@[s as int], curve@[i as int]);
                lemma_zero_vector(
                    curve@[e as int].x - curve@[s as int].x,
                    curve@[e as int].y - curve@[s as int].y,
                    0,
                    0,
                );
            }
        }
        let cut = i > s && beyond(num, squared_distance(curve[s], curve[e]));
        if cut {
            ranges.push((i, e));
            let ghost middle = ranges@;
            ranges.push((s, i));
            proof {
                assert(judges(beyond, num as int, den, true));
                assert(middle.drop_last() =~= below);
                assert(ranges@.drop_last() =~= middle);
                assert(ranges_in_line(middle, i as int, n));
                assert(middle.last() == (i, e) && ranges@.last() == (s, i));
                assert(steps_left(middle) == 2 * (e - i) - 1 + steps_left(below));
                assert(steps_left(ranges@) == 2 * (i - s) - 1 + steps_left(middle));
                assert(steps_left(above) == 2 * (e - s) - 1 + steps_left(below));
                assert forall|tail: Seq<int>| #[trigger]
                    completes(beyond, curve@, ranges@, tail) implies keeps(
                    beyond,
                    curve@,
                    0,
                    end as int,
                    after + tail,
                ) by {
                    let (left, rest) = choose|left: Seq<int>, rest: Seq<int>| #[trigger]
                        joins(tail, left, rest) && keeps(beyond, curve@, s as int, i as int, left)
                            && completes(beyond, curve@, middle, rest);
                    let (right, others) = choose|right: Seq<int>, others: Seq<int>| #[trigger]
                        joins(rest, right, others) && keeps(beyond, curve@, i as int, e as int, right)
                            && completes(beyond, curve@, below, others);
                    let both = left + right;
                    assert(both.subrange(0, left.len() as int) =~= left);
                    assert(both.subrange(left.len() as int, both.len() as int) =~= right);
                    assert(begins(both, left));
                    assert(keeps(beyond, curve@, s as int, e as int, both));
                    assert(tail =~= both + others);
                    assert(joins(tail, both, others));
                    assert(completes(beyond, curve@, above, tail));
                }
            }
        } else {
            res.push(curve[e]);
            proof {
                assert(i == s || judges(beyond, num as int, den, false));
                assert(keeps(beyond, curve@, s as int, e as int, seq![e as int]));
                assert(steps_left(above) == 2 * (e - s) - 1 + steps_left(below));
                let ghost before = after;
                after = after.push(e as int);
                assert(seq![0int] + after =~= (seq![0int] + before).push(e as int));
                assert(res@ =~= picked(curve@, seq![0int] + after));
                assert forall|tail: Seq<int>| #[trigger]
                    completes(beyond, curve@, below, tail) implies keeps(
                    beyond,
                    curve@,
                    0,
                    end as int,
                    after + tail,
                ) by {
                    let longer = seq![e as int] + tail;
                    assert(joins(longer, seq![e as int], tail));
                    assert(completes(beyond, curve@, above, longer));
                    assert(after + tail =~= before + longer);
                }
            }
        }
    }
    proof {
        assert(completes(beyond, curve@, ranges@, Seq::empty()));
        assert(after + Seq::<int>::empty() =~= after);
        lemma_keeps_the_end(beyond, curve@, 0, end as int, after);
        assert((seq![0int] + after).last() == after.last());
        assert((seq![0int] + after)[0] == 0);
    }
    if closed {
        res.pop();
    }
    res
}

/// The pieces of the path through `arc` whose lengths make up its length:
/// one from each point to the next, and for a closed path of more than two
/// points one more, between the first point and the last.
pub open spec fn segments_of<T>(arc: Seq<Point<T>>, closed: bool) -> Seq<(Point<T>, Point<T>)> {
    let steps = Seq::new(
        if arc.len() >= 1 { (arc.len() - 1) as nat } else { 0 },
        |i: int| (arc[i], arc[i + 1]),
    );
    if arc.len() > 2 && closed {
        steps.push((arc[0], arc[arc.len() - 1]))
    } else {
        steps
    }
}

/// Closing a path of two points, or fewer, adds nothing to it: the piece
/// back to the start would be the one already there.
pub proof fn lemma_closing_two_points<T>(arc: Seq<Point<T>>)
    requires
        arc.len() <= 2,
    ensures
        segments_of(arc, true) == segments_of(arc, false),
{
}

/// Lists the pieces of the path through `arc` in the order in which their
/// lengths are added up. The length of the arc is the sum of the distances
/// between the two ends of each piece; fewer than two points give no piece.
pub fn arc_segments<T: Copy>(arc: &[Point<T>], closed: bool) -> (segments: Vec<(Point<T>, Point<T>)>)
    ensures
        segments@ == segments_of(arc@, closed),
{
    let mut segments: Vec<(Point<T>, Point<T>)> = Vec::new();
    let mut i: usize = 1;
    while i < arc.len()
        invariant
            1 <= i,
            arc@.len() >= 1 ==> i <= arc@.len(),
            arc@.len() >= 1 ==> segments@ == Seq::new((i - 1) as nat, |j: int| (arc@[j], arc@[j + 1])),
            arc@.len() == 0 ==> segments@.len() == 0,
        decreases arc.len() - i,
    {
        segments.push((arc[i - 1], arc[i]));
        assert(segments@ =~= Seq::new(i as nat, |j: int| (arc@[j], arc@[j + 1])));
        i += 1;
    }
    assert(segments@ =~= Seq::new(
        if arc@.len() >= 1 { (arc@.len() - 1) as nat } else { 0 },
        |j: int| (arc@[j], arc@[j + 1]),
    ));
    if arc.len() > 2 && closed {
        segments.push((arc[0], arc[arc.len() - 1]));
    }
    segments
}

/// Finds the minimal area rectangle that covers all of the points of the
/// contour, with its corners in the order top left, top right, bottom
/// right, bottom left.
///
/// The rectangle is that of the contour's convex hull. A hull of one point
/// gives that point four times and a hull of two points gives each of them
/// twice; every point of the contour then lies on the segment between the
/// first two corners. A hull of three or more points, a strictly convex
/// polygon, is handed to `calipers`, which turns it edge by edge and returns
/// the smallest box;
/// if that box encloses the vertices of the hull, it encloses the contour.
pub fn min_area_rect<F: Fn(&Vec<Point<i32>>) -> [Point<i32>; 4]>(
    contour: &[Point<i32>],
    calipers: F,
) -> (rect: [Point<i32>; 4])
    requires
        contour@.len() > 0,
        forall|hull: &Vec<Point<i32>>|
            hull@.len() >= 3 && strictly_convex(hull@) ==> #[trigger] calipers.requires((hull,)),
    ensures
        ({
            let hull = hull_of(contour@.to_multiset());
            &&& hull.len() == 1 ==> rect@ == seq![hull[0], hull[0], hull[0], hull[0]]
            &&& hull.len() == 2 ==> rect@ == seq![hull[0], hull[1], hull[1], hull[0]]
            &&& hull.len() >= 3 ==> exists|given: &Vec<Point<i32>>|
                given@ == hull && #[trigger] calipers.ensures((given,), rect)
            &&& hull.len() <= 2 ==> forall|i: int|
                0 <= i < contour@.len() ==> on_segment(rect[0], rect[1], #[trigger] contour[i])
            &&& hull.len() >= 3 && encloses_all(rect@, hull) ==> encloses_all(rect@, contour@)
        }),
{
    let hull = convex_hull(contour);
    if hull.len() == 1 {
        let rect = [hull[0], hull[0], hull[0], hull[0]];
        proof {
            assert(rect@ =~= seq![hull[0], hull[0], hull[0], hull[0]]);
            lemma_area_degenerate(hull[0], hull[0]);
        }
        rect
    } else if hull.len() == 2 {
        let rect = [hull[0], hull[1], hull[1], hull[0]];
        proof {
            assert(rect@ =~= seq![hull[0], hull[1], hull[1], hull[0]]);
        }
        rect
    } else {
        let rect = calipers(&hull);
        proof {
            if encloses_all(rect@, hull@) {
                lemma_enclosing_what_spans(rect@, hull@, contour@);
            }
        }
        rect
    }
}

/// Two inputs that hold the same points, each as often as the other, have
/// the same convex hull, whatever the order in which they hold them.
pub proof fn lemma_hull_ignores_order(a: Seq<Point<i32>>, b: Seq<Point<i32>>)
    requires
        a.to_multiset() == b.to_multiset(),
    ensures
        hull_of(a.to_multiset()) == hull_of(b.to_multiset()),
{
}

} // verus!
