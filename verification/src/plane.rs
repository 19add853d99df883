//! Facts about the cross product of integer vectors in the plane.
//!
//! A vector is written as its two components. The closed upper half plane
//! without the negative horizontal axis is where every polar angle lies in
//! `[0, pi)`; comparing directions by the sign of a cross product is a total
//! order there.

use vstd::prelude::*;

verus! {

/// The cross product of `(ax, ay)` and `(bx, by)`: positive when the second
/// vector points to the left of the first.
pub open spec fn cross(ax: int, ay: int, bx: int, by: int) -> int {
    ax * by - ay * bx
}

/// The squared length of `(ax, ay)`.
pub open spec fn norm2(ax: int, ay: int) -> int {
    ax * ax + ay * ay
}

/// `(ax, ay)` has a polar angle in `[0, pi)` or is the zero vector.
pub open spec fn upper(ax: int, ay: int) -> bool {
    ay > 0 || (ay == 0 && ax >= 0)
}

/// The cross product changes its sign when the two vectors are exchanged,
/// and a vector has no cross product with itself.
pub proof fn lemma_cross_swap(ax: int, ay: int, bx: int, by: int)
    ensures
        cross(bx, by, ax, ay) == -cross(ax, ay, bx, by),
        cross(ax, ay, ax, ay) == 0,
{
    assert(ax * by == by * ax) by (nonlinear_arith);
    assert(ay * bx == bx * ay) by (nonlinear_arith);
}

/// Splitting a vector along two others: each component of
/// `cross(a, b) * c` is `cross(a, c) * b - cross(b, c) * a`.
pub proof fn lemma_three_vectors(ax: int, ay: int, bx: int, by: int, cx: int, cy: int)
    ensures
        cross(ax, ay, cx, cy) * bx == cross(ax, ay, bx, by) * cx + cross(bx, by, cx, cy) * ax,
        cross(ax, ay, cx, cy) * by == cross(ax, ay, bx, by) * cy + cross(bx, by, cx, cy) * ay,
{
    assert((ax * cy - ay * cx) * bx == (ax * by - ay * bx) * cx + (bx * cy - by * cx) * ax)
        by (nonlinear_arith);
    assert((ax * cy - ay * cx) * by == (ax * by - ay * bx) * cy + (bx * cy - by * cx) * ay)
        by (nonlinear_arith);
}


/// The relation between the six cross products of four vectors:
/// `(a x b)(c x d) = (a x c)(b x d) - (a x d)(b x c)`.
pub proof fn lemma_four_vectors(
    ax: int, ay: int, bx: int, by: int,
    cx: int, cy: int, dx: int, dy: int,
)
    ensures
        cross(ax, ay, bx, by) * cross(cx, cy, dx, dy)
            == cross(ax, ay, cx, cy) * cross(bx, by, dx, dy)
             - cross(ax, ay, dx, dy) * cross(bx, by, cx, cy),
{
    let k = cross(ax, ay, bx, by);
    let p = cross(ax, ay, cx, cy);
    let q = cross(bx, by, cx, cy);
    lemma_three_vectors(ax, ay, bx, by, cx, cy);
    assert(k * (cx * dy - cy * dx) == (k * cx) * dy - (k * cy) * dx) by (nonlinear_arith);
    assert((p * bx - q * ax) * dy == p * (bx * dy) - q * (ax * dy)) by (nonlinear_arith);
    assert((p * by - q * ay) * dx == p * (by * dx) - q * (ay * dx)) by (nonlinear_arith);
    assert(p * (bx * dy - by * dx) == p * (bx * dy) - p * (by * dx)) by (nonlinear_arith);
    assert((ax * dy - ay * dx) * q == q * (ax * dy) - q * (ay * dx)) by (nonlinear_arith);
}


/// A product of two numbers of known sign.
pub proof fn lemma_sign_of_product(a: int, b: int)
    ensures
        a >= 0 && b >= 0 ==> a * b >= 0,
        a <= 0 && b <= 0 ==> a * b >= 0,
        a >= 0 && b <= 0 ==> a * b <= 0,
        a <= 0 && b >= 0 ==> a * b <= 0,
        a > 0 && b > 0 ==> a * b > 0,
        a < 0 && b < 0 ==> a * b > 0,
        a > 0 && b < 0 ==> a * b < 0,
        a < 0 && b > 0 ==> a * b < 0,
        a == 0 || b == 0 ==> a * b == 0,
{
    assert(a >= 0 && b >= 0 ==> a * b >= 0) by (nonlinear_arith);
    assert(a <= 0 && b <= 0 ==> a * b >= 0) by (nonlinear_arith);
    assert(a >= 0 && b <= 0 ==> a * b <= 0) by (nonlinear_arith);
    assert(a <= 0 && b >= 0 ==> a * b <= 0) by (nonlinear_arith);
    assert(a > 0 && b > 0 ==> a * b > 0) by (nonlinear_arith);
    assert(a < 0 && b < 0 ==> a * b > 0) by (nonlinear_arith);
    assert(a > 0 && b < 0 ==> a * b < 0) by (nonlinear_arith);
    assert(a < 0 && b > 0 ==> a * b < 0) by (nonlinear_arith);
    assert(a == 0 || b == 0 ==> a * b == 0) by (nonlinear_arith);
}

/// A vector inside the wedge from `a` round to `b` (counter-clockwise, less
/// than half a turn) is to the left of every direction `d` that has both
/// `a` and `b` to its left.
pub proof fn lemma_wedge_left_of(
    ax: int, ay: int, bx: int, by: int,
    yx: int, yy: int, dx: int, dy: int,
)
    requires
        cross(ax, ay, bx, by) > 0,
        cross(ax, ay, yx, yy) >= 0,
        cross(yx, yy, bx, by) >= 0,
        cross(dx, dy, ax, ay) >= 0,
        cross(dx, dy, bx, by) >= 0,
    ensures
        cross(dx, dy, yx, yy) >= 0,
{
    lemma_four_vectors(ax, ay, bx, by, dx, dy, yx, yy);
    lemma_cross_swap(ax, ay, dx, dy);
    lemma_cross_swap(bx, by, yx, yy);
    lemma_cross_swap(bx, by, dx, dy);
    let k = cross(ax, ay, bx, by);
    let t = cross(dx, dy, yx, yy);
    lemma_sign_of_product(cross(ax, ay, dx, dy), cross(bx, by, yx, yy));
    lemma_sign_of_product(cross(ax, ay, yx, yy), cross(bx, by, dx, dy));
    assert(k * t >= 0);
    lemma_sign_of_product(k, t);
}

/// A vector inside the wedge from `a` round to `b` has to its left every
/// direction `e` that is to the left of both `a` and `b`.
pub proof fn lemma_wedge_right_of(
    ax: int, ay: int, bx: int, by: int,
    yx: int, yy: int, ex: int, ey: int,
)
    requires
        cross(ax, ay, bx, by) > 0,
        cross(ax, ay, yx, yy) >= 0,
        cross(yx, yy, bx, by) >= 0,
        cross(ax, ay, ex, ey) >= 0,
        cross(bx, by, ex, ey) >= 0,
    ensures
        cross(yx, yy, ex, ey) >= 0,
{
    lemma_four_vectors(ax, ay, bx, by, yx, yy, ex, ey);
    lemma_cross_swap(bx, by, yx, yy);
    let k = cross(ax, ay, bx, by);
    let t = cross(yx, yy, ex, ey);
    lemma_sign_of_product(cross(ax, ay, yx, yy), cross(bx, by, ex, ey));
    lemma_sign_of_product(cross(ax, ay, ex, ey), cross(bx, by, yx, yy));
    assert(k * t >= 0);
    lemma_sign_of_product(k, t);
}

/// Directions in the upper half plane: strictly before, then not after,
/// gives strictly before.
pub proof fn lemma_before_then_not_after(ax: int, ay: int, bx: int, by: int, cx: int, cy: int)
    requires
        upper(ax, ay),
        upper(bx, by),
        upper(cx, cy),
        cross(ax, ay, bx, by) > 0,
        cross(bx, by, cx, cy) >= 0,
        cx != 0 || cy != 0,
    ensures
        cross(ax, ay, cx, cy) > 0,
{
    lemma_three_vectors(ax, ay, bx, by, cx, cy);
    lemma_sign_of_product(ay, bx);
    lemma_sign_of_product(ax, by);
    lemma_sign_of_product(by, cx);
    lemma_sign_of_product(bx, cy);
    if by > 0 {
        if cy > 0 {
            lemma_sign_of_product(cross(ax, ay, bx, by), cy);
            lemma_sign_of_product(cross(bx, by, cx, cy), ay);
            lemma_sign_of_product(cross(ax, ay, cx, cy), by);
        }
    }
}

/// Directions in the upper half plane: not after, then strictly before,
/// gives strictly before, for a first vector that is not zero.
pub proof fn lemma_not_after_then_before(ax: int, ay: int, bx: int, by: int, cx: int, cy: int)
    requires
        upper(ax, ay),
        upper(bx, by),
        upper(cx, cy),
        cross(ax, ay, bx, by) >= 0,
        cross(bx, by, cx, cy) > 0,
        ax != 0 || ay != 0,
    ensures
        cross(ax, ay, cx, cy) > 0,
{
    lemma_three_vectors(ax, ay, bx, by, cx, cy);
    lemma_sign_of_product(ay, bx);
    lemma_sign_of_product(ax, by);
    lemma_sign_of_product(by, cx);
    lemma_sign_of_product(bx, cy);
    lemma_sign_of_product(ax, cy);
    lemma_sign_of_product(ay, cx);
    if by > 0 {
        lemma_sign_of_product(cross(ax, ay, bx, by), cy);
        lemma_sign_of_product(cross(bx, by, cx, cy), ay);
        lemma_sign_of_product(cross(ax, ay, cx, cy), by);
    }
}

/// Two vectors that are each parallel to a third one, which is not zero, are parallel.
pub proof fn lemma_parallel_through(ax: int, ay: int, bx: int, by: int, cx: int, cy: int)
    requires
        cross(ax, ay, bx, by) == 0,
        cross(bx, by, cx, cy) == 0,
        bx != 0 || by != 0,
    ensures
        cross(ax, ay, cx, cy) == 0,
{
    lemma_three_vectors(ax, ay, bx, by, cx, cy);
    lemma_sign_of_product(cross(ax, ay, bx, by), cx);
    lemma_sign_of_product(cross(ax, ay, bx, by), cy);
    lemma_sign_of_product(cross(bx, by, cx, cy), ax);
    lemma_sign_of_product(cross(bx, by, cx, cy), ay);
    lemma_sign_of_product(cross(ax, ay, cx, cy), bx);
    lemma_sign_of_product(cross(ax, ay, cx, cy), by);
}


/// For parallel vectors, squared lengths and squared heights are in proportion.
proof fn lemma_parallel_heights(ax: int, ay: int, bx: int, by: int)
    requires
        cross(ax, ay, bx, by) == 0,
    ensures
        norm2(ax, ay) * (by * by) == (ay * ay) * norm2(bx, by),
        norm2(ax, ay) * (bx * bx) == (ax * ax) * norm2(bx, by),
{
    let m = ax * by;
    assert(m == ay * bx);
    assert((ax * ax) * (by * by) == m * m) by (nonlinear_arith)
        requires m == ax * by;
    assert((ay * ay) * (bx * bx) == m * m) by (nonlinear_arith)
        requires m == ay * bx;
    assert((ax * ax + ay * ay) * (by * by) == (ax * ax) * (by * by) + (ay * ay) * (by * by))
        by (nonlinear_arith);
    assert((ay * ay) * (bx * bx + by * by) == (ay * ay) * (bx * bx) + (ay * ay) * (by * by))
        by (nonlinear_arith);
    assert((ax * ax + ay * ay) * (bx * bx) == (ax * ax) * (bx * bx) + (ay * ay) * (bx * bx))
        by (nonlinear_arith);
    assert((ax * ax) * (bx * bx + by * by) == (ax * ax) * (bx * bx) + (ax * ax) * (by * by))
        by (nonlinear_arith);
}

/// Squares order as their non-negative roots do.
proof fn lemma_square_order(s: int, t: int)
    requires
        0 <= s,
        0 <= t,
    ensures
        s <= t <==> s * s <= t * t,
        s * s >= 0,
{
    assert(s <= t ==> s * s <= t * t) by (nonlinear_arith)
        requires 0 <= s, 0 <= t;
    assert(s > t ==> s * s > t * t) by (nonlinear_arith)
        requires 0 <= s, 0 <= t;
    assert(s * s >= 0) by (nonlinear_arith);
}

/// Of two parallel vectors of the upper half plane, the one that is not
/// longer lies between the origin and the other, component by component.
pub proof fn lemma_shorter_is_between(ax: int, ay: int, bx: int, by: int)
    requires
        upper(ax, ay),
        upper(bx, by),
        cross(ax, ay, bx, by) == 0,
        norm2(ax, ay) <= norm2(bx, by),
    ensures
        0 <= ay <= by,
        bx >= 0 ==> 0 <= ax <= bx,
        bx <= 0 ==> bx <= ax <= 0,
{
    lemma_parallel_heights(ax, ay, bx, by);
    let na = norm2(ax, ay);
    let nb = norm2(bx, by);
    assert(ax * ax >= 0 && ay * ay >= 0 && bx * bx >= 0 && by * by >= 0) by (nonlinear_arith);
    lemma_sign_of_product(ay, bx);
    lemma_sign_of_product(ax, by);
    if by > 0 {
        assert(by * by > 0) by (nonlinear_arith)
            requires by > 0;
        assert(nb > 0);
        // height: na * by^2 == ay^2 * nb and na <= nb
        assert(ay * ay <= by * by) by (nonlinear_arith)
            requires
                na * (by * by) == (ay * ay) * nb,
                na <= nb,
                nb > 0,
                ay * ay >= 0,
                by * by > 0,
        ;
        lemma_square_order(ay, by);
        // width follows from ax * by == ay * bx
        if bx >= 0 {
            assert(ax >= 0) by (nonlinear_arith)
                requires ax * by == ay * bx, by > 0, ay >= 0, bx >= 0;
            assert(ax <= bx) by (nonlinear_arith)
                requires ax * by == ay * bx, by > 0, 0 <= ay <= by, bx >= 0;
        }
        if bx <= 0 {
            assert(ax <= 0) by (nonlinear_arith)
                requires ax * by == ay * bx, by > 0, ay >= 0, bx <= 0;
            assert(bx <= ax) by (nonlinear_arith)
                requires ax * by == ay * bx, by > 0, 0 <= ay <= by, bx <= 0;
        }
    } else {
        assert(by == 0 && bx >= 0);
        assert(by * by == 0);
        if bx > 0 {
            assert(ay == 0) by (nonlinear_arith)
                requires ay * bx == 0, bx > 0;
            assert(ay * ay == 0);
            lemma_square_order(ax, bx);
        } else {
            assert(bx * bx == 0);
            assert(ax == 0 && ay == 0) by (nonlinear_arith)
                requires ax * ax + ay * ay <= 0;
        }
    }
}

/// Two parallel vectors of the upper half plane with the same length are equal.
pub proof fn lemma_same_ray_same_length(ax: int, ay: int, bx: int, by: int)
    requires
        upper(ax, ay),
        upper(bx, by),
        cross(ax, ay, bx, by) == 0,
        norm2(ax, ay) == norm2(bx, by),
    ensures
        ax == bx,
        ay == by,
{
    lemma_shorter_is_between(ax, ay, bx, by);
    lemma_cross_swap(ax, ay, bx, by);
    lemma_shorter_is_between(bx, by, ax, ay);
}

/// A quantity that changes linearly along a ray and is non-negative at the
/// origin and at the far vector `b` is non-negative at every vector between.
pub proof fn lemma_linear_between(
    ax: int, ay: int, bx: int, by: int,
    ex: int, ey: int, base: int,
)
    requires
        upper(ax, ay),
        upper(bx, by),
        cross(ax, ay, bx, by) == 0,
        norm2(ax, ay) <= norm2(bx, by),
        base >= 0,
        base + cross(ex, ey, bx, by) >= 0,
    ensures
        base + cross(ex, ey, ax, ay) >= 0,
{
    lemma_shorter_is_between(ax, ay, bx, by);
    let fa = cross(ex, ey, ax, ay);
    let fb = cross(ex, ey, bx, by);
    if by > 0 {
        // by * fa == ay * fb
        assert(by * fa == ay * fb) by (nonlinear_arith)
            requires
                fa == ex * ay - ey * ax,
                fb == ex * by - ey * bx,
                ax * by - ay * bx == 0,
        ;
        assert(base + fa >= 0) by (nonlinear_arith)
            requires
                by * fa == ay * fb,
                0 <= ay <= by,
                by > 0,
                base >= 0,
                base + fb >= 0,
        ;
    } else if bx > 0 {
        assert(ay == 0 && by == 0);
        assert(bx * fa == ax * fb) by (nonlinear_arith)
            requires
                fa == ex * ay - ey * ax,
                fb == ex * by - ey * bx,
                ay == 0,
                by == 0,
        ;
        assert(base + fa >= 0) by (nonlinear_arith)
            requires
                bx * fa == ax * fb,
                0 <= ax <= bx,
                bx > 0,
                base >= 0,
                base + fb >= 0,
        ;
    } else {
        assert(ax == 0 && ay == 0);
        assert(fa == 0) by (nonlinear_arith)
            requires fa == ex * ay - ey * ax, ax == 0, ay == 0;
    }
}


/// The zero vector is parallel to every vector and has no length; every
/// other vector has a positive squared length.
pub proof fn lemma_zero_vector(ax: int, ay: int, bx: int, by: int)
    ensures
        ax == 0 && ay == 0 ==> cross(ax, ay, bx, by) == 0 && norm2(ax, ay) == 0,
        ax != 0 || ay != 0 ==> norm2(ax, ay) > 0,
        norm2(ax, ay) >= 0,
{
    lemma_sign_of_product(ax, by);
    lemma_sign_of_product(ay, bx);
    lemma_sign_of_product(ax, ax);
    lemma_sign_of_product(ay, ay);
}

/// A quantity that changes linearly over the plane and is non-negative at
/// the origin and at the vectors `a` and `b` is non-negative at every
/// vector of the triangle that the three span.
pub proof fn lemma_linear_in_triangle(
    ax: int, ay: int, bx: int, by: int,
    yx: int, yy: int, ex: int, ey: int, base: int,
)
    requires
        cross(ax, ay, bx, by) > 0,
        cross(ax, ay, yx, yy) >= 0,
        cross(yx, yy, bx, by) >= 0,
        cross(ax - yx, ay - yy, bx - yx, by - yy) >= 0,
        base >= 0,
        base + cross(ex, ey, ax, ay) >= 0,
        base + cross(ex, ey, bx, by) >= 0,
    ensures
        base + cross(ex, ey, yx, yy) >= 0,
{
    let t = cross(ax, ay, bx, by);
    let wa = cross(yx, yy, bx, by);
    let wb = cross(ax, ay, yx, yy);
    let w0 = cross(ax - yx, ay - yy, bx - yx, by - yy);
    let fa = cross(ex, ey, ax, ay);
    let fb = cross(ex, ey, bx, by);
    let fy = cross(ex, ey, yx, yy);
    assert(w0 == t - wa - wb) by (nonlinear_arith)
        requires
            w0 == (ax - yx) * (by - yy) - (ay - yy) * (bx - yx),
            t == ax * by - ay * bx,
            wa == yx * by - yy * bx,
            wb == ax * yy - ay * yx,
    ;
    lemma_four_vectors(ax, ay, bx, by, ex, ey, yx, yy);
    lemma_cross_swap(ax, ay, ex, ey);
    lemma_cross_swap(bx, by, yx, yy);
    lemma_cross_swap(bx, by, ex, ey);
    assert(t * fy == fa * wa + wb * fb) by (nonlinear_arith)
        requires
            t * fy == (-fa) * (-wa) - wb * (-fb),
    ;
    assert(t * (base + fy) == w0 * base + wa * (base + fa) + wb * (base + fb)) by (nonlinear_arith)
        requires
            t * fy == fa * wa + wb * fb,
            w0 == t - wa - wb,
    ;
    lemma_sign_of_product(w0, base);
    lemma_sign_of_product(wa, base + fa);
    lemma_sign_of_product(wb, base + fb);
    lemma_sign_of_product(t, base + fy);
}

} // verus!
