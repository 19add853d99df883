//! Why the scan yields a convex polygon round all the points, and why the
//! order of the points round the pivot leaves no choice.

use vstd::prelude::*;
use vstd::multiset::Multiset;
use vstd::seq_lib::{to_multiset_contains, to_multiset_len, to_multiset_remove};
use crate::hull::{
    all_left_of, area2, dist2, encloses, encloses_all, ends_ray, is_pivot, is_sorted_of, left_turn,
    lower, no_right_turn, next_index, on_segment, pivot_of, precedes, ray_ends, ray_ends_upto,
    scan, scan_upto, sorted_around, sorted_of, spans, strictly_convex, unwind,
};
use crate::plane::{
    cross, lemma_before_then_not_after, lemma_linear_between, lemma_linear_in_triangle,
    lemma_not_after_then_before, lemma_parallel_through, lemma_same_ray_same_length,
    lemma_shorter_is_between, lemma_sign_of_product, lemma_wedge_left_of, lemma_wedge_right_of,
    lemma_zero_vector,
};
use crate::point::Point;

verus! {

/// The signed area keeps its value when the three points are rotated and
/// changes its sign when two of them are exchanged.
pub proof fn lemma_area_symmetry(o: Point<i32>, a: Point<i32>, b: Point<i32>)
    ensures
        area2(a, b, o) == area2(o, a, b),
        area2(b, o, a) == area2(o, a, b),
        area2(o, b, a) == -area2(o, a, b),
        area2(a, o, b) == -area2(o, a, b),
        area2(b, a, o) == -area2(o, a, b),
{
    let (ox, oy) = (o.x as int, o.y as int);
    let (ax, ay) = (a.x as int, a.y as int);
    let (bx, by) = (b.x as int, b.y as int);
    let v = (ax - ox) * (by - oy) - (ay - oy) * (bx - ox);
    assert((bx - ax) * (oy - ay) - (by - ay) * (ox - ax) == v) by (nonlinear_arith)
        requires v == (ax - ox) * (by - oy) - (ay - oy) * (bx - ox);
    assert((ox - bx) * (ay - by) - (oy - by) * (ax - bx) == v) by (nonlinear_arith)
        requires v == (ax - ox) * (by - oy) - (ay - oy) * (bx - ox);
    assert((bx - ox) * (ay - oy) - (by - oy) * (ax - ox) == -v) by (nonlinear_arith)
        requires v == (ax - ox) * (by - oy) - (ay - oy) * (bx - ox);
    assert((ox - ax) * (by - ay) - (oy - ay) * (bx - ax) == -v) by (nonlinear_arith)
        requires v == (ax - ox) * (by - oy) - (ay - oy) * (bx - ox);
    assert((ax - bx) * (oy - by) - (ay - by) * (ox - bx) == -v) by (nonlinear_arith)
        requires v == (ax - ox) * (by - oy) - (ay - oy) * (bx - ox);
}

/// A triangle with two equal corners has no area.
pub proof fn lemma_area_degenerate(o: Point<i32>, a: Point<i32>)
    ensures
        area2(o, a, a) == 0,
        area2(o, o, a) == 0,
        area2(o, a, o) == 0,
{
    lemma_area_symmetry(o, a, a);
    lemma_sign_of_product(0, a.y - o.y);
    lemma_sign_of_product(0, a.x - o.x);
    lemma_sign_of_product(a.x - o.x, 0);
    lemma_sign_of_product(a.y - o.y, 0);
}

/// Seen from a point that none of them is lower than, `precedes` never
/// holds both ways.
pub proof fn lemma_precedes_asymmetric(o: Point<i32>, a: Point<i32>, b: Point<i32>)
    ensures
        !(precedes(o, a, b) && precedes(o, b, a)),
        !precedes(o, a, a),
{
    lemma_area_symmetry(o, a, b);
    lemma_area_degenerate(o, a);
}

/// Two different points that are not lower than `o` are ordered one way or the other.
pub proof fn lemma_precedes_total(o: Point<i32>, a: Point<i32>, b: Point<i32>)
    requires
        !lower(a, o),
        !lower(b, o),
        a != b,
    ensures
        precedes(o, a, b) || precedes(o, b, a),
{
    lemma_area_symmetry(o, a, b);
    if area2(o, a, b) == 0 && dist2(o, a) == dist2(o, b) {
        lemma_same_ray_same_length(a.x - o.x, a.y - o.y, b.x - o.x, b.y - o.y);
        assert(a.x == b.x && a.y == b.y);
    }
}

/// Seen from a point that none of them is lower than, `precedes` is transitive.
pub proof fn lemma_precedes_transitive(o: Point<i32>, a: Point<i32>, b: Point<i32>, c: Point<i32>)
    requires
        !lower(a, o),
        !lower(b, o),
        !lower(c, o),
        precedes(o, a, b),
        precedes(o, b, c),
    ensures
        precedes(o, a, c),
{
    let (ax, ay) = (a.x - o.x, a.y - o.y);
    let (bx, by) = (b.x - o.x, b.y - o.y);
    let (cx, cy) = (c.x - o.x, c.y - o.y);
    lemma_zero_vector(ax, ay, bx, by);
    lemma_zero_vector(bx, by, cx, cy);
    lemma_zero_vector(cx, cy, bx, by);
    lemma_zero_vector(ax, ay, cx, cy);
    if area2(o, a, b) > 0 {
        // c is not the pivot: it is after b at an angle, or farther than b
        lemma_before_then_not_after(ax, ay, bx, by, cx, cy);
    } else if area2(o, b, c) > 0 {
        if ax != 0 || ay != 0 {
            lemma_not_after_then_before(ax, ay, bx, by, cx, cy);
        }
    } else {
        lemma_parallel_through(ax, ay, bx, by, cx, cy);
    }
}


/// A multiset has at most one lowest point.
pub proof fn lemma_pivot_unique(m: Multiset<Point<i32>>, p: Point<i32>, q: Point<i32>)
    requires
        is_pivot(m, p),
        is_pivot(m, q),
    ensures
        p == q,
{
    assert(!lower(q, p));
    assert(!lower(p, q));
}

/// The lowest point of a multiset is the one that `pivot_of` names.
pub proof fn lemma_pivot_found(m: Multiset<Point<i32>>, p: Point<i32>)
    requires
        is_pivot(m, p),
    ensures
        pivot_of(m) == p,
{
    lemma_pivot_unique(m, p, pivot_of(m));
}

/// Points that none is lower than `o` can be put in order round `o` in one way only.
pub proof fn lemma_sorted_unique(o: Point<i32>, s: Seq<Point<i32>>, t: Seq<Point<i32>>)
    requires
        s.to_multiset() == t.to_multiset(),
        sorted_around(o, s),
        sorted_around(o, t),
        forall|i: int| 0 <= i < s.len() ==> !lower(#[trigger] s[i], o),
    ensures
        s == t,
    decreases s.len(),
{
    to_multiset_len(s);
    to_multiset_len(t);
    if s.len() == 0 {
        assert(s =~= t);
    } else {
        let s0 = s[0];
        let t0 = t[0];
        to_multiset_contains(s, s0);
        to_multiset_contains(t, s0);
        to_multiset_contains(s, t0);
        to_multiset_contains(t, t0);
        assert(s.contains(s0));
        assert(t.contains(t0));
        let j = choose|j: int| 0 <= j < t.len() && t[j] == s0;
        let i = choose|i: int| 0 <= i < s.len() && s[i] == t0;
        assert(!lower(s[i], o));
        if s0 != t0 {
            assert(j > 0 && i > 0);
            assert(!precedes(o, t[j], t[0]));
            assert(!precedes(o, s[i], s[0]));
            lemma_precedes_total(o, s0, t0);
        }
        to_multiset_remove(s, 0);
        to_multiset_remove(t, 0);
        let s1 = s.remove(0);
        let t1 = t.remove(0);
        assert forall|a: int, b: int| 0 <= a < b < s1.len() implies !#[trigger] precedes(
            o,
            s1[b],
            s1[a],
        ) by {
            assert(!precedes(o, s[b + 1], s[a + 1]));
        }
        assert forall|a: int, b: int| 0 <= a < b < t1.len() implies !#[trigger] precedes(
            o,
            t1[b],
            t1[a],
        ) by {
            assert(!precedes(o, t[b + 1], t[a + 1]));
        }
        assert forall|a: int| 0 <= a < s1.len() implies !lower(#[trigger] s1[a], o) by {
            assert(s1[a] == s[a + 1]);
        }
        lemma_sorted_unique(o, s1, t1);
        assert(s =~= t) by {
            assert forall|a: int| 0 <= a < s.len() implies s[a] == t[a] by {
                if a > 0 {
                    assert(s[a] == s1[a - 1]);
                    assert(t[a] == t1[a - 1]);
                }
            }
        }
    }
}

/// An ordered arrangement of `m` round `o` is the one that `sorted_of` names.
pub proof fn lemma_sorted_found(o: Point<i32>, m: Multiset<Point<i32>>, s: Seq<Point<i32>>)
    requires
        is_sorted_of(o, m, s),
        forall|i: int| 0 <= i < s.len() ==> !lower(#[trigger] s[i], o),
    ensures
        sorted_of(o, m) == s,
{
    lemma_sorted_unique(o, s, sorted_of(o, m));
}


/// `q` lies on the segment from `o` to `far`, as seen in the order round `o`:
/// in line with both and not farther from `o` than `far`.
pub open spec fn covers(o: Point<i32>, far: Point<i32>, q: Point<i32>) -> bool {
    area2(o, q, far) == 0 && dist2(o, q) <= dist2(o, far)
}

/// Some point of `c` covers `q`.
pub open spec fn covered(o: Point<i32>, c: Seq<Point<i32>>, q: Point<i32>) -> bool {
    exists|j: int| 0 <= j < c.len() && covers(o, #[trigger] c[j], q)
}

/// No point of `c` is lower than `o`, and the points of `c` stand at
/// strictly growing polar angles round `o`.
pub open spec fn fan(o: Point<i32>, c: Seq<Point<i32>>) -> bool {
    &&& forall|i: int| 0 <= i < c.len() ==> !lower(#[trigger] c[i], o)
    &&& forall|i: int, j: int| 0 <= i < j < c.len() ==> #[trigger] left_turn(o, c[i], c[j])
}

/// In an ordered sequence a later point stands at no smaller angle, and if
/// at the same angle then no nearer.
pub proof fn lemma_sorted_pair(o: Point<i32>, s: Seq<Point<i32>>, i: int, j: int)
    requires
        sorted_around(o, s),
        0 <= i < j < s.len(),
    ensures
        area2(o, s[i], s[j]) >= 0,
        area2(o, s[i], s[j]) == 0 ==> dist2(o, s[i]) <= dist2(o, s[j]),
{
    assert(!precedes(o, s[j], s[i]));
    lemma_area_symmetry(o, s[i], s[j]);
}

/// In an ordered sequence, a point that is not in line with its successor
/// stands strictly before every later point.
pub proof fn lemma_strictly_before_later(o: Point<i32>, s: Seq<Point<i32>>, i: int, m: int)
    requires
        sorted_around(o, s),
        forall|a: int| 0 <= a < s.len() ==> !lower(#[trigger] s[a], o),
        0 <= i < m < s.len(),
        area2(o, s[i], s[i + 1]) != 0,
    ensures
        area2(o, s[i], s[m]) > 0,
{
    lemma_sorted_pair(o, s, i, i + 1);
    if m > i + 1 {
        let a = s[i];
        let b = s[i + 1];
        let c = s[m];
        lemma_sorted_pair(o, s, i + 1, m);
        lemma_zero_vector(b.x - o.x, b.y - o.y, c.x - o.x, c.y - o.y);
        lemma_zero_vector(c.x - o.x, c.y - o.y, b.x - o.x, b.y - o.y);
        lemma_zero_vector(b.x - o.x, b.y - o.y, a.x - o.x, a.y - o.y);
        lemma_area_symmetry(o, a, b);
        assert(!lower(a, o) && !lower(b, o) && !lower(c, o));
        lemma_before_then_not_after(
            a.x - o.x, a.y - o.y, b.x - o.x, b.y - o.y, c.x - o.x, c.y - o.y,
        );
    }
}

/// What holds of the ray ends among the first `k` points of an ordered sequence.
pub open spec fn ray_ends_inv(o: Point<i32>, s: Seq<Point<i32>>, k: nat) -> bool {
    let c = ray_ends_upto(o, s, k);
    &&& c.len() <= k
    &&& forall|a: int| 0 <= a < c.len() ==> s.contains(#[trigger] c[a])
    &&& forall|a: int, m: int|
        0 <= a < c.len() && k <= m < s.len() ==> #[trigger] left_turn(o, c[a], s[m])
    &&& forall|a: int, b: int| 0 <= a < b < c.len() ==> #[trigger] left_turn(o, c[a], c[b])
    &&& forall|i: int|
        0 <= i < k ==> covered(o, c, #[trigger] s[i]) || (k < s.len() && covers(o, s[k as int], s[i]))
    &&& (0 < k && k == s.len() ==> c.len() > 0)
}

/// A point that covers another is itself covered by whatever covers it
/// next in line.
proof fn lemma_covers_chain(o: Point<i32>, q: Point<i32>, mid: Point<i32>, far: Point<i32>)
    requires
        covers(o, mid, q),
        covers(o, far, mid),
    ensures
        covers(o, far, q),
{
    let (qx, qy) = (q.x - o.x, q.y - o.y);
    let (mx, my) = (mid.x - o.x, mid.y - o.y);
    let (fx, fy) = (far.x - o.x, far.y - o.y);
    lemma_zero_vector(mx, my, fx, fy);
    lemma_zero_vector(qx, qy, fx, fy);
    if mx != 0 || my != 0 {
        lemma_parallel_through(qx, qy, mx, my, fx, fy);
    }
}

/// `ray_ends_inv` holds of every beginning of an ordered sequence.
pub proof fn lemma_ray_ends_upto(o: Point<i32>, s: Seq<Point<i32>>, k: nat)
    requires
        sorted_around(o, s),
        forall|a: int| 0 <= a < s.len() ==> !lower(#[trigger] s[a], o),
        k <= s.len(),
    ensures
        ray_ends_inv(o, s, k),
    decreases k,
{
    if k > 0 {
        let i0 = (k - 1) as int;
        lemma_ray_ends_upto(o, s, (k - 1) as nat);
        let before = ray_ends_upto(o, s, (k - 1) as nat);
        let c = ray_ends_upto(o, s, k);
        let p = s[i0];
        if ends_ray(o, s, i0) {
            assert(c == before.push(p));
            assert forall|a: int| 0 <= a < c.len() implies s.contains(#[trigger] c[a]) by {
                if a < before.len() {
                    assert(c[a] == before[a]);
                }
            }
            assert forall|a: int, m: int| 0 <= a < c.len() && k <= m < s.len() implies #[trigger] left_turn(
                o,
                c[a],
                s[m],
            ) by {
                if a < before.len() {
                    assert(left_turn(o, before[a], s[m]));
                } else {
                    lemma_strictly_before_later(o, s, i0, m);
                }
            }
            assert forall|a: int, b: int| 0 <= a < b < c.len() implies #[trigger] left_turn(
                o,
                c[a],
                c[b],
            ) by {
                if b < before.len() {
                    assert(left_turn(o, before[a], before[b]));
                } else {
                    assert(left_turn(o, before[a], s[i0]));
                }
            }
            assert forall|i: int| 0 <= i < k implies covered(o, c, #[trigger] s[i]) by {
                let last = before.len() as int;
                assert(c[last] == p);
                if i == i0 {
                    lemma_area_degenerate(o, p);
                    assert(covers(o, c[last], s[i]));
                } else if covered(o, before, s[i]) {
                    let j = choose|j: int| 0 <= j < before.len() && covers(o, #[trigger] before[j], s[i]);
                    assert(c[j] == before[j]);
                    assert(covers(o, c[j], s[i]));
                } else {
                    assert(covers(o, c[last], s[i]));
                }
            }
        } else {
            assert(c == before);
            let nx = s[i0 + 1];
            lemma_sorted_pair(o, s, i0, i0 + 1);
            assert(covers(o, nx, p));
            assert forall|i: int| 0 <= i < k implies covered(o, c, #[trigger] s[i]) || covers(
                o,
                s[k as int],
                s[i],
            ) by {
                if i == i0 {
                } else if !covered(o, before, s[i]) {
                    assert(covers(o, p, s[i]));
                    lemma_covers_chain(o, s[i], p, nx);
                }
            }
        }
    }
}

/// The ray ends of an ordered sequence stand at strictly growing angles,
/// are points of the sequence, and cover every point of it.
pub proof fn lemma_ray_ends(o: Point<i32>, s: Seq<Point<i32>>)
    requires
        sorted_around(o, s),
        forall|a: int| 0 <= a < s.len() ==> !lower(#[trigger] s[a], o),
    ensures
        fan(o, ray_ends(o, s)),
        ray_ends(o, s).len() <= s.len(),
        s.len() > 0 ==> ray_ends(o, s).len() > 0,
        forall|a: int| 0 <= a < ray_ends(o, s).len() ==> s.contains(#[trigger] ray_ends(o, s)[a]),
        forall|i: int| 0 <= i < s.len() ==> covered(o, ray_ends(o, s), #[trigger] s[i]),
{
    lemma_ray_ends_upto(o, s, s.len());
    let c = ray_ends(o, s);
    assert forall|i: int| 0 <= i < c.len() implies !lower(#[trigger] c[i], o) by {
        assert(s.contains(c[i]));
    }
    assert forall|i: int, j: int| 0 <= i < j < c.len() implies #[trigger] left_turn(o, c[i], c[j]) by {
        assert(left_turn(o, c[i], c[j]));
    }
}


/// What holds of the stack `st` once the scan has taken the first `k`
/// candidates of `c`, for `k` of one or more.
pub open spec fn chain_ok(o: Point<i32>, c: Seq<Point<i32>>, k: int, st: Seq<Point<i32>>) -> bool {
    &&& st.len() >= 2
    &&& st[0] == o
    &&& st.last() == c[k - 1]
    &&& (k == 1 ==> st.len() == 2)
    &&& (k >= 2 ==> st.len() >= 3)
    // the stack holds candidates
    &&& forall|i: int| 1 <= i < st.len() ==> c.contains(#[trigger] st[i])
    // every candidate still to come stands strictly after every point of the stack
    &&& forall|i: int, m: int|
        1 <= i < st.len() && k <= m < c.len() ==> #[trigger] left_turn(o, st[i], c[m])
    // the stack stands at strictly growing angles round the pivot
    &&& forall|i: int, j: int| 1 <= i < j < st.len() ==> #[trigger] left_turn(o, st[i], st[j])
    // the path along the stack turns left at every point
    &&& forall|i: int| 0 <= i && i + 2 < st.len() ==> #[trigger] left_turn(st[i], st[i + 1], st[i + 2])
    // no candidate taken so far is to the right of an edge of the path
    &&& forall|i: int, m: int|
        0 <= i && i + 1 < st.len() && 0 <= m < k ==> #[trigger] no_right_turn(st[i], st[i + 1], c[m])
}

/// The wedge argument with points: `y` lies in the wedge at `t` from `a`
/// round to `b`, and `d` has both `a` and `b` on its left; then `y` is on
/// the left of `d` too.
proof fn lemma_wedge_left(t: Point<i32>, a: Point<i32>, b: Point<i32>, y: Point<i32>, d: Point<i32>)
    requires
        area2(t, a, b) > 0,
        area2(t, a, y) >= 0,
        area2(t, y, b) >= 0,
        area2(t, d, a) >= 0,
        area2(t, d, b) >= 0,
    ensures
        area2(t, d, y) >= 0,
{
    lemma_wedge_left_of(
        a.x - t.x, a.y - t.y, b.x - t.x, b.y - t.y,
        y.x - t.x, y.y - t.y, d.x - t.x, d.y - t.y,
    );
}

/// The wedge argument with points, mirrored: `e` is on the left of both
/// `a` and `b`; then it is on the left of `y`.
proof fn lemma_wedge_right(t: Point<i32>, a: Point<i32>, b: Point<i32>, y: Point<i32>, e: Point<i32>)
    requires
        area2(t, a, b) > 0,
        area2(t, a, y) >= 0,
        area2(t, y, b) >= 0,
        area2(t, a, e) >= 0,
        area2(t, b, e) >= 0,
    ensures
        area2(t, y, e) >= 0,
{
    lemma_wedge_right_of(
        a.x - t.x, a.y - t.y, b.x - t.x, b.y - t.y,
        y.x - t.x, y.y - t.y, e.x - t.x, e.y - t.y,
    );
}

/// What unwinding leaves: a stack of two or more points at whose top the
/// path to `p` turns left, and whose edge to `p` has no earlier candidate
/// on its right. `w` is the point that the proof watches: the pivot at
/// first, then the point taken off last.
proof fn lemma_unwind(
    o: Point<i32>, c: Seq<Point<i32>>, k: int, st: Seq<Point<i32>>, n: int, w: Point<i32>,
)
    requires
        2 <= k < c.len(),
        chain_ok(o, c, k, st),
        2 <= n <= st.len(),
        forall|m: int| 0 <= m < k ==> #[trigger] no_right_turn(st[n - 1], w, c[m]),
        no_right_turn(st[n - 1], c[k], w),
        left_turn(st[n - 2], st[n - 1], w),
    ensures
        ({
            let t = unwind(st.subrange(0, n), c[k]);
            &&& 2 <= t.len() <= n
            &&& t == st.subrange(0, t.len() as int)
            &&& left_turn(t[t.len() - 2], t[t.len() - 1], c[k])
            &&& forall|m: int| 0 <= m < k ==> #[trigger] no_right_turn(t[t.len() - 1], c[k], c[m])
        }),
    decreases n,
{
    let p = c[k];
    let cur = st.subrange(0, n);
    let top = st[n - 1];
    let under = st[n - 2];
    assert(cur[n - 1] == top && cur[n - 2] == under);
    if area2(under, top, p) <= 0 {
        // the top is taken off; it is the point to watch from now on
        if n == 2 {
            assert(left_turn(o, st[1], c[k]));
            assert(false);
        }
        assert(cur.drop_last() =~= st.subrange(0, n - 1));
        lemma_area_symmetry(under, top, p);
        assert(left_turn(st[n - 3], st[n - 3 + 1], st[n - 3 + 2]));
        assert forall|m: int| 0 <= m < k implies #[trigger] no_right_turn(st[n - 2], top, c[m]) by {
            assert(no_right_turn(st[n - 2], st[n - 2 + 1], c[m]));
        }
        lemma_unwind(o, c, k, st, n - 1, top);
    } else {
        assert forall|m: int| 0 <= m < k implies #[trigger] no_right_turn(top, p, c[m]) by {
            let q = c[m];
            lemma_area_symmetry(under, top, w);
            lemma_area_symmetry(under, top, q);
            lemma_area_symmetry(under, top, p);
            assert(no_right_turn(st[n - 2], st[n - 2 + 1], c[m]));
            assert(no_right_turn(st[n - 1], w, c[m]));
            lemma_wedge_left(top, w, under, q, p);
        }
    }
}

/// A candidate that stands after the whole stack and to the left of its
/// last edge is to the left of every edge.
proof fn lemma_left_of_chain(
    o: Point<i32>, c: Seq<Point<i32>>, k: int, st: Seq<Point<i32>>, n: int, i: int,
)
    requires
        1 <= k < c.len(),
        chain_ok(o, c, k, st),
        2 <= n <= st.len(),
        left_turn(st[n - 2], st[n - 1], c[k]),
        0 <= i <= n - 2,
    ensures
        no_right_turn(st[i], st[i + 1], c[k]),
    decreases n - i,
{
    if i < n - 2 {
        lemma_left_of_chain(o, c, k, st, n, i + 1);
        let p = c[k];
        let t = st[i + 1];
        let a = st[i + 2];
        let e = st[i];
        assert(left_turn(o, st[i + 1], st[i + 2]));
        assert(left_turn(o, st[i + 1], c[k]));
        assert(left_turn(st[i], st[i + 1], st[i + 2]));
        lemma_area_symmetry(o, t, a);
        lemma_area_symmetry(o, t, p);
        lemma_area_symmetry(e, t, a);
        lemma_area_symmetry(e, t, p);
        if i == 0 {
            lemma_area_degenerate(t, o);
        } else {
            assert(left_turn(o, st[i], st[i + 1]));
            lemma_area_symmetry(o, e, t);
        }
        lemma_wedge_right(t, a, o, p, e);
    }
}

/// The scan keeps `chain_ok` when it takes one more candidate.
proof fn lemma_scan_step(o: Point<i32>, c: Seq<Point<i32>>, k: int, st: Seq<Point<i32>>)
    requires
        fan(o, c),
        1 <= k < c.len(),
        chain_ok(o, c, k, st),
    ensures
        chain_ok(o, c, k + 1, unwind(st, c[k]).push(c[k])),
{
    let p = c[k];
    let t = unwind(st, p);
    let n = st.len() as int;
    let top = st[n - 1];
    assert(st.subrange(0, n) =~= st);
    assert(left_turn(o, st[n - 1], c[k]));
    if k == 1 {
        // the stack is the pivot and the first candidate, and stays
        assert(t == st);
        lemma_area_degenerate(top, p);
        assert forall|m: int| 0 <= m < k implies #[trigger] no_right_turn(t[t.len() - 1], c[k], c[m]) by {
            assert(c[m] == top);
        }
    } else {
        assert(left_turn(o, st[n - 2], st[n - 1]));
        lemma_area_symmetry(o, st[n - 2], st[n - 1]);
        lemma_area_symmetry(o, top, p);
        assert forall|m: int| 0 <= m < k implies #[trigger] no_right_turn(st[n - 1], o, c[m]) by {
            lemma_area_symmetry(o, c[m], top);
            if m == k - 1 {
                lemma_area_degenerate(o, top);
            } else {
                assert(left_turn(o, c[m], c[k - 1]));
            }
        }
        lemma_unwind(o, c, k, st, n, o);
    }
    let tn = t.len() as int;
    assert(t == st.subrange(0, tn));
    let nst = t.push(p);
    assert forall|i: int| 1 <= i < nst.len() implies c.contains(#[trigger] nst[i]) by {
        if i < tn {
            assert(nst[i] == st[i]);
        }
    }
    assert forall|i: int, m: int| 1 <= i < nst.len() && k + 1 <= m < c.len() implies #[trigger] left_turn(
        o,
        nst[i],
        c[m],
    ) by {
        if i < tn {
            assert(left_turn(o, st[i], c[m]));
        } else {
            assert(left_turn(o, c[k], c[m]));
        }
    }
    assert forall|i: int, j: int| 1 <= i < j < nst.len() implies #[trigger] left_turn(
        o,
        nst[i],
        nst[j],
    ) by {
        if j < tn {
            assert(left_turn(o, st[i], st[j]));
        } else {
            assert(left_turn(o, st[i], c[k]));
        }
    }
    assert forall|i: int| 0 <= i && i + 2 < nst.len() implies #[trigger] left_turn(
        nst[i],
        nst[i + 1],
        nst[i + 2],
    ) by {
        if i + 2 < tn {
            assert(left_turn(st[i], st[i + 1], st[i + 2]));
        }
    }
    assert forall|i: int, m: int| 0 <= i && i + 1 < nst.len() && 0 <= m < k + 1 implies #[trigger] no_right_turn(
        nst[i],
        nst[i + 1],
        c[m],
    ) by {
        if i + 1 < tn {
            if m == k {
                lemma_left_of_chain(o, c, k, st, tn, i);
            } else {
                assert(no_right_turn(st[i], st[i + 1], c[m]));
            }
        } else {
            if m == k {
                lemma_area_degenerate(nst[i], p);
            } else {
                assert(no_right_turn(t[t.len() - 1], c[k], c[m]));
            }
        }
    }
}

/// The stack that the scan leaves after `k` candidates satisfies `chain_ok`.
proof fn lemma_scan_upto(o: Point<i32>, c: Seq<Point<i32>>, k: nat)
    requires
        fan(o, c),
        1 <= k <= c.len(),
    ensures
        chain_ok(o, c, k as int, scan_upto(o, c, k)),
    decreases k,
{
    if k == 1 {
        let st = scan_upto(o, c, 1);
        assert(scan_upto(o, c, 0) == seq![o]);
        assert(unwind(seq![o], c[0]) == seq![o]);
        assert(st == seq![o].push(c[0]));
        assert(st[1] == c[0]);
        lemma_area_degenerate(o, c[0]);
        assert forall|i: int, m: int| 1 <= i < st.len() && 1 <= m < c.len() implies #[trigger] left_turn(
            o,
            st[i],
            c[m],
        ) by {
            assert(left_turn(o, c[0], c[m]));
        }
        assert forall|i: int, m: int| 0 <= i && i + 1 < st.len() && 0 <= m < 1 implies #[trigger] no_right_turn(
            st[i],
            st[i + 1],
            c[m],
        ) by {
            assert(st[i] == o && st[i + 1] == c[0] && c[m] == c[0]);
        }
    } else {
        lemma_scan_upto(o, c, (k - 1) as nat);
        lemma_scan_step(o, c, k - 1, scan_upto(o, c, (k - 1) as nat));
    }
}

/// The signed area over a fixed edge changes linearly with the third point.
proof fn lemma_area_shift(e1: Point<i32>, e2: Point<i32>, o: Point<i32>, x: Point<i32>)
    ensures
        area2(e1, e2, x) == area2(e1, e2, o) + cross(
            e2.x - e1.x,
            e2.y - e1.y,
            x.x - o.x,
            x.y - o.y,
        ),
{
    let ex = e2.x - e1.x;
    let ey = e2.y - e1.y;
    let ux = x.x - o.x;
    let uy = x.y - o.y;
    let vx = o.x - e1.x;
    let vy = o.y - e1.y;
    assert(x.x - e1.x == ux + vx);
    assert(x.y - e1.y == uy + vy);
    assert(ex * (uy + vy) - ey * (ux + vx) == (ex * vy - ey * vx) + (ex * uy - ey * ux))
        by (nonlinear_arith);
}

/// A point covered by `far` is to the left of, or on, every edge that has
/// both `o` and `far` to its left or on it.
proof fn lemma_covered_left_of_edge(
    o: Point<i32>, far: Point<i32>, q: Point<i32>, e1: Point<i32>, e2: Point<i32>,
)
    requires
        !lower(q, o),
        !lower(far, o),
        covers(o, far, q),
        no_right_turn(e1, e2, o),
        no_right_turn(e1, e2, far),
    ensures
        no_right_turn(e1, e2, q),
{
    lemma_area_shift(e1, e2, o, q);
    lemma_area_shift(e1, e2, o, far);
    lemma_linear_between(
        q.x - o.x, q.y - o.y, far.x - o.x, far.y - o.y,
        e2.x - e1.x, e2.y - e1.y, area2(e1, e2, o),
    );
}

/// A point covered by `far` lies on the segment from `o` to `far`.
proof fn lemma_covered_on_segment(o: Point<i32>, far: Point<i32>, q: Point<i32>)
    requires
        !lower(q, o),
        !lower(far, o),
        covers(o, far, q),
    ensures
        on_segment(o, far, q),
{
    lemma_shorter_is_between(q.x - o.x, q.y - o.y, far.x - o.x, far.y - o.y);
    lemma_area_symmetry(o, q, far);
}

/// The pivot and every candidate lie to the left of, or on, every edge of
/// the polygon that the scan leaves, the closing edge included.
proof fn lemma_scan_edges(o: Point<i32>, c: Seq<Point<i32>>, i: int)
    requires
        fan(o, c),
        c.len() >= 2,
        0 <= i < scan(o, c).len(),
    ensures
        no_right_turn(scan(o, c)[i], scan(o, c)[next_index(scan(o, c), i)], o),
        forall|m: int| 0 <= m < c.len() ==> #[trigger] no_right_turn(
            scan(o, c)[i],
            scan(o, c)[next_index(scan(o, c), i)],
            c[m],
        ),
{
    let h = scan(o, c);
    let k = c.len() as int;
    lemma_scan_upto(o, c, c.len());
    let e1 = h[i];
    let e2 = h[next_index(h, i)];
    if i + 1 < h.len() {
        if i == 0 {
            lemma_area_degenerate(o, e2);
        } else {
            assert(left_turn(o, h[i], h[i + 1]));
            lemma_area_symmetry(o, e1, e2);
        }
        assert forall|m: int| 0 <= m < c.len() implies #[trigger] no_right_turn(e1, e2, c[m]) by {
            assert(no_right_turn(h[i], h[i + 1], c[m]));
        }
    } else {
        assert(e2 == o && e1 == c[k - 1]);
        lemma_area_degenerate(e1, o);
        assert forall|m: int| 0 <= m < c.len() implies #[trigger] no_right_turn(e1, e2, c[m]) by {
            lemma_area_symmetry(o, c[m], e1);
            if m == k - 1 {
                lemma_area_degenerate(o, e1);
            } else {
                assert(left_turn(o, c[m], c[k - 1]));
            }
        }
    }
}

/// Among the triangles that the pivot spans with the edges of the stack,
/// one has `q` between its two sides at the pivot.
proof fn lemma_fan_triangle(o: Point<i32>, h: Seq<Point<i32>>, q: Point<i32>, k: int) -> (i: int)
    requires
        h.len() >= 3,
        1 <= k <= h.len() - 2,
        area2(o, h[1], q) >= 0,
        area2(o, h[k + 1], q) <= 0,
    ensures
        1 <= i <= k,
        area2(o, h[i], q) >= 0,
        area2(o, h[i + 1], q) <= 0,
    decreases k,
{
    if area2(o, h[k], q) >= 0 {
        k
    } else {
        lemma_fan_triangle(o, h, q, k - 1)
    }
}

/// A point of the triangle `o`, `a`, `b` lies to the left of, or on, every
/// line that has the three corners to its left or on it.
proof fn lemma_triangle_left_of(
    o: Point<i32>, a: Point<i32>, b: Point<i32>, q: Point<i32>, e1: Point<i32>, e2: Point<i32>,
)
    requires
        area2(o, a, b) > 0,
        area2(o, a, q) >= 0,
        area2(o, q, b) >= 0,
        area2(q, a, b) >= 0,
        area2(e1, e2, o) >= 0,
        area2(e1, e2, a) >= 0,
        area2(e1, e2, b) >= 0,
    ensures
        area2(e1, e2, q) >= 0,
{
    lemma_area_shift(e1, e2, o, q);
    lemma_area_shift(e1, e2, o, a);
    lemma_area_shift(e1, e2, o, b);
    assert(area2(q, a, b) == cross(
        (a.x - o.x) - (q.x - o.x),
        (a.y - o.y) - (q.y - o.y),
        (b.x - o.x) - (q.x - o.x),
        (b.y - o.y) - (q.y - o.y),
    ));
    lemma_linear_in_triangle(
        a.x - o.x, a.y - o.y, b.x - o.x, b.y - o.y,
        q.x - o.x, q.y - o.y, e2.x - e1.x, e2.y - e1.y, area2(e1, e2, o),
    );
}

/// A point that the polygon of the scan encloses lies to the left of, or
/// on, every line that has all the polygon's vertices to its left or on it.
proof fn lemma_enclosed_left_of(
    o: Point<i32>, c: Seq<Point<i32>>, q: Point<i32>, e1: Point<i32>, e2: Point<i32>,
)
    requires
        fan(o, c),
        c.len() >= 2,
        encloses(scan(o, c), q),
        all_left_of(e1, e2, scan(o, c)),
    ensures
        no_right_turn(e1, e2, q),
{
    let h = scan(o, c);
    let n = h.len() as int;
    lemma_scan_upto(o, c, c.len());
    assert(no_right_turn(h[0], h[next_index(h, 0)], q));
    assert(no_right_turn(h[n - 1], h[next_index(h, n - 1)], q));
    lemma_area_symmetry(o, h[n - 1], q);
    let i = lemma_fan_triangle(o, h, q, n - 2);
    let a = h[i];
    let b = h[i + 1];
    assert(left_turn(o, h[i], h[i + 1]));
    assert(no_right_turn(h[i], h[next_index(h, i)], q));
    lemma_area_symmetry(o, b, q);
    lemma_area_symmetry(q, a, b);
    assert(no_right_turn(e1, e2, h[0]));
    assert(no_right_turn(e1, e2, h[i]));
    assert(no_right_turn(e1, e2, h[i + 1]));
    lemma_triangle_left_of(o, a, b, q, e1, e2);
}

/// Whatever line has the polygon of the scan to its left has every point
/// of the ordered sequence to its left: the points lie between the vertices.
proof fn lemma_hull_spans(o: Point<i32>, s: Seq<Point<i32>>)
    requires
        sorted_around(o, s),
        forall|a: int| 0 <= a < s.len() ==> !lower(#[trigger] s[a], o),
    ensures
        forall|e1: Point<i32>, e2: Point<i32>| #[trigger]
            all_left_of(e1, e2, scan(o, ray_ends(o, s))) ==> all_left_of(e1, e2, s),
{
    let c = ray_ends(o, s);
    let h = scan(o, c);
    lemma_ray_ends(o, s);
    assert forall|e1: Point<i32>, e2: Point<i32>| #[trigger] all_left_of(e1, e2, h) implies all_left_of(
        e1,
        e2,
        s,
    ) by {
        assert forall|k: int| 0 <= k < s.len() implies no_right_turn(e1, e2, #[trigger] s[k]) by {
            let q = s[k];
            assert(covered(o, c, q));
            let j = choose|j: int| 0 <= j < c.len() && covers(o, #[trigger] c[j], q);
            lemma_scan_upto(o, c, c.len());
            assert(no_right_turn(e1, e2, h[0]));
            if c.len() == 1 {
                assert(h[1] == c[0]);
                assert(no_right_turn(e1, e2, h[1]));
                lemma_covered_left_of_edge(o, c[0], q, e1, e2);
            } else {
                lemma_candidate_enclosed(o, c, j);
                lemma_enclosed_left_of(o, c, c[j], e1, e2);
                lemma_covered_left_of_edge(o, c[j], q, e1, e2);
            }
        }
    }
}

/// The polygon of the scan encloses every candidate.
proof fn lemma_candidate_enclosed(o: Point<i32>, c: Seq<Point<i32>>, j: int)
    requires
        fan(o, c),
        c.len() >= 2,
        0 <= j < c.len(),
    ensures
        encloses(scan(o, c), c[j]),
{
    let h = scan(o, c);
    lemma_scan_upto(o, c, c.len());
    assert forall|i: int| 0 <= i < h.len() implies no_right_turn(
        #[trigger] h[i],
        h[next_index(h, i)],
        c[j],
    ) by {
        lemma_scan_edges(o, c, i);
    }
}

/// The polygon that the scan leaves from the pivot `o` over the ray ends of
/// the ordered sequence `s`: it starts at `o`, its other vertices are points
/// of `s`, it is strictly convex, and it encloses `o` and every point of `s`.
pub proof fn lemma_scan_of_sorted(o: Point<i32>, s: Seq<Point<i32>>)
    requires
        sorted_around(o, s),
        forall|a: int| 0 <= a < s.len() ==> !lower(#[trigger] s[a], o),
    ensures
        ({
            let h = scan(o, ray_ends(o, s));
            &&& h.len() >= 1
            &&& h[0] == o
            &&& (s.len() == 0 ==> h.len() == 1)
            &&& forall|i: int| 1 <= i < h.len() ==> s.contains(#[trigger] h[i])
            &&& strictly_convex(h)
            &&& encloses(h, o)
            &&& forall|a: int| 0 <= a < s.len() ==> encloses(h, #[trigger] s[a])
            &&& spans(h, s)
        }),
{
    let c = ray_ends(o, s);
    let h = scan(o, c);
    lemma_ray_ends(o, s);
    lemma_hull_spans(o, s);
    if c.len() == 0 {
        assert(h == seq![o]);
    } else {
        lemma_scan_upto(o, c, c.len());
        assert forall|i: int| 1 <= i < h.len() implies s.contains(#[trigger] h[i]) by {
            assert(c.contains(h[i]));
            let j = choose|j: int| 0 <= j < c.len() && c[j] == h[i];
            assert(s.contains(c[j]));
        }
        if c.len() == 1 {
            assert(h.len() == 2);
            assert(h[1] == c[0]);
            lemma_area_degenerate(o, c[0]);
            assert(on_segment(o, c[0], o));
            assert forall|a: int| 0 <= a < s.len() implies encloses(h, #[trigger] s[a]) by {
                assert(covered(o, c, s[a]));
                let j = choose|j: int| 0 <= j < c.len() && covers(o, #[trigger] c[j], s[a]);
                lemma_covered_on_segment(o, c[0], s[a]);
            }
        } else {
            let n = h.len() as int;
            assert forall|i: int| 0 <= i < h.len() implies left_turn(
                #[trigger] h[i],
                h[next_index(h, i)],
                h[next_index(h, next_index(h, i))],
            ) by {
                if i + 2 < n {
                    assert(left_turn(h[i], h[i + 1], h[i + 2]));
                } else if i + 2 == n {
                    assert(left_turn(o, h[i], h[i + 1]));
                    lemma_area_symmetry(o, h[i], h[i + 1]);
                } else {
                    assert(left_turn(o, h[1], h[i]));
                    lemma_area_symmetry(o, h[1], h[i]);
                }
            }
            assert forall|i: int| 0 <= i < h.len() implies no_right_turn(
                #[trigger] h[i],
                h[next_index(h, i)],
                o,
            ) by {
                lemma_scan_edges(o, c, i);
            }
            assert forall|a: int| 0 <= a < s.len() implies encloses(h, #[trigger] s[a]) by {
                let q = s[a];
                assert(covered(o, c, q));
                let j = choose|j: int| 0 <= j < c.len() && covers(o, #[trigger] c[j], q);
                assert forall|i: int| 0 <= i < h.len() implies no_right_turn(
                    #[trigger] h[i],
                    h[next_index(h, i)],
                    q,
                ) by {
                    lemma_scan_edges(o, c, i);
                    assert(no_right_turn(h[i], h[next_index(h, i)], c[j]));
                    lemma_covered_left_of_edge(o, c[j], q, h[i], h[next_index(h, i)]);
                }
            }
        }
    }
}

/// A polygon of three or more vertices that encloses every point of `h`
/// encloses every point that lies between the points of `h`.
pub proof fn lemma_enclosing_what_spans(region: Seq<Point<i32>>, h: Seq<Point<i32>>, s: Seq<Point<i32>>)
    requires
        region.len() >= 3,
        spans(h, s),
        encloses_all(region, h),
    ensures
        encloses_all(region, s),
{
    assert forall|k: int| 0 <= k < s.len() implies encloses(region, #[trigger] s[k]) by {
        assert forall|i: int| 0 <= i < region.len() implies no_right_turn(
            #[trigger] region[i],
            region[next_index(region, i)],
            s[k],
        ) by {
            let e1 = region[i];
            let e2 = region[next_index(region, i)];
            assert forall|j: int| 0 <= j < h.len() implies no_right_turn(e1, e2, #[trigger] h[j]) by {
                assert(encloses(region, h[j]));
            }
            assert(all_left_of(e1, e2, h));
            assert(all_left_of(e1, e2, s));
        }
    }
}

} // verus!
