//! The mathematical model of the convex hull: what the pivot is, how the
//! other points are ordered round it, and what the scan makes of them.

use vstd::prelude::*;
use vstd::multiset::Multiset;
use crate::plane::{cross, norm2};
use crate::point::Point;

verus! {

/// Twice the signed area of the triangle `o`, `a`, `b`: positive when the
/// three points, in this order, turn counter-clockwise.
pub open spec fn area2(o: Point<i32>, a: Point<i32>, b: Point<i32>) -> int {
    cross(a.x - o.x, a.y - o.y, b.x - o.x, b.y - o.y)
}

/// The path `a`, `b`, `c` turns counter-clockwise.
pub open spec fn left_turn(a: Point<i32>, b: Point<i32>, c: Point<i32>) -> bool {
    area2(a, b, c) > 0
}

/// The path `a`, `b`, `c` does not turn clockwise.
pub open spec fn no_right_turn(a: Point<i32>, b: Point<i32>, c: Point<i32>) -> bool {
    area2(a, b, c) >= 0
}

/// The squared distance between two points.
pub open spec fn dist2(o: Point<i32>, a: Point<i32>) -> int {
    norm2(a.x - o.x, a.y - o.y)
}

/// `p` is lower than `q`: a smaller `y`, or the same `y` and a smaller `x`.
pub open spec fn lower(p: Point<i32>, q: Point<i32>) -> bool {
    p.y < q.y || (p.y == q.y && p.x < q.x)
}

/// `p` occurs in `m` and no point of `m` is lower.
pub open spec fn is_pivot(m: Multiset<Point<i32>>, p: Point<i32>) -> bool {
    m.contains(p) && forall|q: Point<i32>| m.contains(q) ==> !lower(q, p)
}

/// The lowest point of a multiset that is not empty.
pub open spec fn pivot_of(m: Multiset<Point<i32>>) -> Point<i32> {
    choose|p: Point<i32>| is_pivot(m, p)
}

/// Seen from `o`, `a` comes strictly before `b`: at a smaller polar angle,
/// or in line with `o` and nearer to it.
pub open spec fn precedes(o: Point<i32>, a: Point<i32>, b: Point<i32>) -> bool {
    area2(o, a, b) > 0 || (area2(o, a, b) == 0 && dist2(o, a) < dist2(o, b))
}

/// No point of `s` comes before an earlier one, seen from `o`.
pub open spec fn sorted_around(o: Point<i32>, s: Seq<Point<i32>>) -> bool {
    forall|i: int, j: int| 0 <= i < j < s.len() ==> !#[trigger] precedes(o, s[j], s[i])
}

/// `s` holds exactly the points of `m`, in their order round `o`.
pub open spec fn is_sorted_of(o: Point<i32>, m: Multiset<Point<i32>>, s: Seq<Point<i32>>) -> bool {
    s.to_multiset() == m && sorted_around(o, s)
}

/// The points of `m` in their order round `o`.
pub open spec fn sorted_of(o: Point<i32>, m: Multiset<Point<i32>>) -> Seq<Point<i32>> {
    choose|s: Seq<Point<i32>>| is_sorted_of(o, m, s)
}

/// The point at `i` is the last of `s` on its ray from `o`.
pub open spec fn ends_ray(o: Point<i32>, s: Seq<Point<i32>>, i: int) -> bool {
    i + 1 == s.len() || area2(o, s[i], s[i + 1]) != 0
}

/// Of the first `k` points of `s`, those that end their ray.
pub open spec fn ray_ends_upto(o: Point<i32>, s: Seq<Point<i32>>, k: nat) -> Seq<Point<i32>>
    decreases k,
{
    if k == 0 {
        Seq::empty()
    } else {
        let before = ray_ends_upto(o, s, (k - 1) as nat);
        if ends_ray(o, s, k - 1) {
            before.push(s[k - 1])
        } else {
            before
        }
    }
}

/// The farthest point of each ray from `o` through points of `s`, which is ordered round `o`.
pub open spec fn ray_ends(o: Point<i32>, s: Seq<Point<i32>>) -> Seq<Point<i32>> {
    ray_ends_upto(o, s, s.len())
}

/// Takes from the top of `stack` every point at which the path to `p`
/// does not turn counter-clockwise, down to a stack of one point.
pub open spec fn unwind(stack: Seq<Point<i32>>, p: Point<i32>) -> Seq<Point<i32>>
    decreases stack.len(),
{
    if stack.len() > 1 && area2(stack[stack.len() - 2], stack[stack.len() - 1], p) <= 0 {
        unwind(stack.drop_last(), p)
    } else {
        stack
    }
}

/// The stack after the scan has taken the first `k` points of `c`.
pub open spec fn scan_upto(o: Point<i32>, c: Seq<Point<i32>>, k: nat) -> Seq<Point<i32>>
    decreases k,
{
    if k == 0 {
        seq![o]
    } else {
        unwind(scan_upto(o, c, (k - 1) as nat), c[k - 1]).push(c[k - 1])
    }
}

/// The Graham scan from the pivot `o` over the candidates `c`.
pub open spec fn scan(o: Point<i32>, c: Seq<Point<i32>>) -> Seq<Point<i32>> {
    scan_upto(o, c, c.len())
}

/// The convex hull of the points of `m`: empty for no points; else the scan
/// from the lowest point over the ray ends of the others, ordered round it.
pub open spec fn hull_of(m: Multiset<Point<i32>>) -> Seq<Point<i32>> {
    if m.len() == 0 {
        Seq::empty()
    } else {
        let o = pivot_of(m);
        scan(o, ray_ends(o, sorted_of(o, m.remove(o))))
    }
}

/// The vertex after `i` on the closed polygon `h`.
pub open spec fn next_index(h: Seq<Point<i32>>, i: int) -> int {
    if i + 1 == h.len() { 0 } else { i + 1 }
}

/// Every three consecutive vertices of the closed polygon `h` turn
/// counter-clockwise, or `h` has fewer than three vertices.
pub open spec fn strictly_convex(h: Seq<Point<i32>>) -> bool {
    h.len() >= 3 ==> forall|i: int| 0 <= i < h.len() ==>
        left_turn(#[trigger] h[i], h[next_index(h, i)], h[next_index(h, next_index(h, i))])
}

/// `q` lies on the segment from `a` to `b`, ends included.
pub open spec fn on_segment(a: Point<i32>, b: Point<i32>, q: Point<i32>) -> bool {
    &&& area2(a, b, q) == 0
    &&& (a.x <= q.x <= b.x || b.x <= q.x <= a.x)
    &&& (a.y <= q.y <= b.y || b.y <= q.y <= a.y)
}

/// `q` lies inside the counter-clockwise polygon `h` or on its border: to
/// the left of, or on, every edge. A polygon of two vertices is a segment,
/// one of a single vertex is that point, and an empty one holds nothing.
pub open spec fn encloses(h: Seq<Point<i32>>, q: Point<i32>) -> bool {
    if h.len() == 0 {
        false
    } else if h.len() == 1 {
        q == h[0]
    } else if h.len() == 2 {
        on_segment(h[0], h[1], q)
    } else {
        forall|i: int| 0 <= i < h.len() ==> no_right_turn(#[trigger] h[i], h[next_index(h, i)], q)
    }
}

/// Every point of `s` is to the left of, or on, the line from `e1` to `e2`.
pub open spec fn all_left_of(e1: Point<i32>, e2: Point<i32>, s: Seq<Point<i32>>) -> bool {
    forall|k: int| 0 <= k < s.len() ==> no_right_turn(e1, e2, #[trigger] s[k])
}

/// The polygon `h` encloses every point of `s`.
pub open spec fn encloses_all(h: Seq<Point<i32>>, s: Seq<Point<i32>>) -> bool {
    forall|k: int| 0 <= k < s.len() ==> encloses(h, #[trigger] s[k])
}

/// The points of `s` lie between the points of `h`: whatever line has all
/// of `h` to its left, or on it, has all of `s` there too.
pub open spec fn spans(h: Seq<Point<i32>>, s: Seq<Point<i32>>) -> bool {
    forall|e1: Point<i32>, e2: Point<i32>| #[trigger] all_left_of(e1, e2, h) ==> all_left_of(e1, e2, s)
}

} // verus!
