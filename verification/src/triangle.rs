use vstd::prelude::*;

use core::cmp::Ordering;

use crate::point::{fits_i64, Point};

verus! {

/// Twice the signed area of the triangle `p0 p1 p2`, as computed by
/// `(p1 - p0).perp_dot_product(p1 - p2)`: positive when the triangle is
/// clockwise, negative when it is counter-clockwise, zero when degenerate.
pub open spec fn area2(p0: Point<i64>, p1: Point<i64>, p2: Point<i64>) -> int {
    (p1.x - p0.x) * (p1.y - p2.y) - (p1.y - p0.y) * (p1.x - p2.x)
}

/// Whether every intermediate value of `double_signed_area(p0, p1, p2)` fits in `i64`.
pub open spec fn area_fits(p0: Point<i64>, p1: Point<i64>, p2: Point<i64>) -> bool {
    &&& fits_i64(p1.x - p0.x)
    &&& fits_i64(p1.y - p0.y)
    &&& fits_i64(p1.x - p2.x)
    &&& fits_i64(p1.y - p2.y)
    &&& fits_i64((p1.x - p0.x) * (p1.y - p2.y))
    &&& fits_i64((p1.y - p0.y) * (p1.x - p2.x))
    &&& fits_i64(area2(p0, p1, p2))
}

/// The ordering `0.cmp(&area)`: `Less` for a clockwise triangle, `Greater`
/// for a counter-clockwise one.
pub open spec fn zero_cmp(area: int) -> Ordering {
    if 0 < area {
        Ordering::Less
    } else if area == 0 {
        Ordering::Equal
    } else {
        Ordering::Greater
    }
}

/// Whether `double_signed_area(p0, p1, p2)` can be computed without overflow.
pub fn area_computable(p0: Point<i64>, p1: Point<i64>, p2: Point<i64>) -> (r: bool)
    ensures
        r == area_fits(p0, p1, p2),
{
    let lo = i64::MIN as i128;
    let hi = i64::MAX as i128;
    let ax = p1.x as i128 - p0.x as i128;
    let ay = p1.y as i128 - p0.y as i128;
    let bx = p1.x as i128 - p2.x as i128;
    let by = p1.y as i128 - p2.y as i128;
    if ax < lo || ax > hi || ay < lo || ay > hi || bx < lo || bx > hi || by < lo || by > hi {
        return false;
    }
    assert(ax * by <= 0x4000_0000_0000_0000_0000_0000_0000_0000) by (nonlinear_arith)
        requires
            -0x8000_0000_0000_0000 <= ax <= 0x7fff_ffff_ffff_ffff,
            -0x8000_0000_0000_0000 <= by <= 0x7fff_ffff_ffff_ffff,
    ;
    assert(ax * by >= -0x4000_0000_0000_0000_0000_0000_0000_0000) by (nonlinear_arith)
        requires
            -0x8000_0000_0000_0000 <= ax <= 0x7fff_ffff_ffff_ffff,
            -0x8000_0000_0000_0000 <= by <= 0x7fff_ffff_ffff_ffff,
    ;
    assert(ay * bx <= 0x4000_0000_0000_0000_0000_0000_0000_0000) by (nonlinear_arith)
        requires
            -0x8000_0000_0000_0000 <= ay <= 0x7fff_ffff_ffff_ffff,
            -0x8000_0000_0000_0000 <= bx <= 0x7fff_ffff_ffff_ffff,
    ;
    assert(ay * bx >= -0x4000_0000_0000_0000_0000_0000_0000_0000) by (nonlinear_arith)
        requires
            -0x8000_0000_0000_0000 <= ay <= 0x7fff_ffff_ffff_ffff,
            -0x8000_0000_0000_0000 <= bx <= 0x7fff_ffff_ffff_ffff,
    ;
    let m1 = ax * by;
    let m2 = ay * bx;
    if m1 < lo || m1 > hi || m2 < lo || m2 > hi {
        return false;
    }
    let a = m1 - m2;
    lo <= a && a <= hi
}

pub fn double_signed_area(p0: Point<i64>, p1: Point<i64>, p2: Point<i64>) -> (r: i64)
    requires
        area_fits(p0, p1, p2),
    ensures
        r == area2(p0, p1, p2),
{
    (p1 - p0).perp_dot_product(p1 - p2)
}

pub fn is_clockwise(p0: Point<i64>, p1: Point<i64>, p2: Point<i64>) -> (r: bool)
    requires
        area_fits(p0, p1, p2),
    ensures
        r == (area2(p0, p1, p2) > 0),
{
    double_signed_area(p0, p1, p2) > 0
}

pub fn clockwise_cmp(p0: Point<i64>, p1: Point<i64>, p2: Point<i64>) -> (r: Ordering)
    requires
        area_fits(p0, p1, p2),
    ensures
        r == zero_cmp(area2(p0, p1, p2)),
{
    let area = double_signed_area(p0, p1, p2);
    if 0 < area {
        Ordering::Less
    } else if area == 0 {
        Ordering::Equal
    } else {
        Ordering::Greater
    }
}

/// Rotating the corners of a triangle keeps its signed area; reversing them
/// negates it, so a clockwise triangle read backwards is counter-clockwise.
pub proof fn lemma_area2_orientation(p0: Point<i64>, p1: Point<i64>, p2: Point<i64>)
    ensures
        area2(p0, p1, p2) == area2(p1, p2, p0),
        area2(p0, p1, p2) == -area2(p2, p1, p0),
        area2(p0, p1, p2) == -area2(p0, p2, p1),
        area2(p0, p1, p2) > 0 ==> area2(p2, p1, p0) < 0,
{
    let (ax, ay, bx, by, cx, cy) = (p0.x as int, p0.y as int, p1.x as int, p1.y as int, p2.x as int, p2.y as int);
    assert((bx - ax) * (by - cy) - (by - ay) * (bx - cx) == (cx - bx) * (cy - ay) - (cy - by) * (cx - ax))
        by (nonlinear_arith);
    assert((bx - ax) * (by - cy) - (by - ay) * (bx - cx) == -((bx - cx) * (by - ay) - (by - cy) * (bx - ax)))
        by (nonlinear_arith);
    assert((bx - ax) * (by - cy) - (by - ay) * (bx - cx) == -((cx - ax) * (cy - by) - (cy - ay) * (cx - bx)))
        by (nonlinear_arith);
}

} // verus!
