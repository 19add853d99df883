//! Exact measurements on points with 32-bit coordinates. The products are
//! taken in 128 bits, where none of them overflows.

use vstd::prelude::*;
use crate::hull::{area2, dist2};
use crate::point::Point;

verus! {

/// The squared distance from `o` to `a`, exact in 128 bits.
pub(crate) fn squared_distance(o: Point<i32>, a: Point<i32>) -> (d: u128)
    ensures
        d == dist2(o, a),
{
    let dx: i128 = a.x as i128 - o.x as i128;
    let dy: i128 = a.y as i128 - o.y as i128;
    assert(0 <= dx * dx <= 0x1_0000_0000_0000_0000) by (nonlinear_arith)
        requires -0x1_0000_0000 <= dx <= 0x1_0000_0000;
    assert(0 <= dy * dy <= 0x1_0000_0000_0000_0000) by (nonlinear_arith)
        requires -0x1_0000_0000 <= dy <= 0x1_0000_0000;
    (dx * dx + dy * dy) as u128
}

/// Twice the signed area of the triangle `o`, `a`, `b`, exact in 128 bits.
pub(crate) fn signed_area(o: Point<i32>, a: Point<i32>, b: Point<i32>) -> (area: i128)
    ensures
        area == area2(o, a, b),
        -0x2_0000_0000_0000_0000 <= area <= 0x2_0000_0000_0000_0000,
{
    let ax: i128 = a.x as i128 - o.x as i128;
    let ay: i128 = a.y as i128 - o.y as i128;
    let bx: i128 = b.x as i128 - o.x as i128;
    let by: i128 = b.y as i128 - o.y as i128;
    assert(-0x1_0000_0000_0000_0000 <= ax * by <= 0x1_0000_0000_0000_0000) by (nonlinear_arith)
        requires
            -0x1_0000_0000 <= ax <= 0x1_0000_0000,
            -0x1_0000_0000 <= by <= 0x1_0000_0000,
    ;
    assert(-0x1_0000_0000_0000_0000 <= ay * bx <= 0x1_0000_0000_0000_0000) by (nonlinear_arith)
        requires
            -0x1_0000_0000 <= ay <= 0x1_0000_0000,
            -0x1_0000_0000 <= bx <= 0x1_0000_0000,
    ;
    ax * by - ay * bx
}

} // verus!
