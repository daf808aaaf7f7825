//! Grid points and the orientation test that the march is built on.
//!
//! Coordinates are integers, so that the test is exact: the sign of a cross
//! product is never lost to rounding. Numbers with a fraction are held at a
//! power-of-ten scale common to all points of an input, which leaves every
//! cross product its sign.

use vstd::prelude::*;

verus! {

/// A point of the plane with integer coordinates.
///
/// Two points are equal exactly when both coordinates are equal.
#[derive(Clone, Copy, Debug, PartialEq, Eq, Structural)]
pub struct Point {
    pub x: i64,
    pub y: i64,
}

impl Point {
    pub fn new(x: i64, y: i64) -> (p: Point)
        ensures
            p.x == x,
            p.y == y,
    {
        Point { x, y }
    }
}

/// Cross product of the vectors `o -> a` and `o -> b`.
///
/// It is positive when `b` lies counter-clockwise of `a` as seen from `o`,
/// negative when `b` lies clockwise of `a`, and zero when the three points
/// are on one line.
pub open spec fn cross(o: Point, a: Point, b: Point) -> int {
    (a.x - o.x) * (b.y - o.y) - (a.y - o.y) * (b.x - o.x)
}

/// The sign of `v`: -1, 0 or 1.
pub open spec fn sign_of(v: int) -> int {
    if v < 0 {
        -1
    } else if v == 0 {
        0
    } else {
        1
    }
}

/// The product of two coordinate differences, as its size and whether it is
/// negative. A difference is less than 2^64 in size, so the size of the
/// product fits 128 bits.
fn product(p: i128, q: i128) -> (r: (bool, u128))
    requires
        -0x1_0000_0000_0000_0000 < p < 0x1_0000_0000_0000_0000,
        -0x1_0000_0000_0000_0000 < q < 0x1_0000_0000_0000_0000,
    ensures
        r.0 == (p * q < 0),
        r.0 ==> r.1 == -(p * q),
        !r.0 ==> r.1 == p * q,
{
    let pm: u128 = if p < 0 {
        (-p) as u128
    } else {
        p as u128
    };
    let qm: u128 = if q < 0 {
        (-q) as u128
    } else {
        q as u128
    };
    assert(pm * qm <= 0xffff_ffff_ffff_ffff * 0xffff_ffff_ffff_ffff) by (nonlinear_arith)
        requires
            pm <= 0xffff_ffff_ffff_ffff,
            qm <= 0xffff_ffff_ffff_ffff,
    ;
    let size: u128 = pm * qm;
    let negative = (p < 0 && q > 0) || (p > 0 && q < 0);
    assert(negative == (p * q < 0) && (negative ==> size == -(p * q)) && (!negative ==> size == p
        * q)) by (nonlinear_arith)
        requires
            p < 0 ==> pm == -p,
            p >= 0 ==> pm == p,
            q < 0 ==> qm == -q,
            q >= 0 ==> qm == q,
            size == pm * qm,
            negative == ((p < 0 && q > 0) || (p > 0 && q < 0)),
    ;
    (negative, size)
}

/// Computes the sign of [`cross`] exactly, for all coordinates: -1 when `b`
/// lies clockwise of `a` as seen from `o`, 1 when counter-clockwise, 0 when
/// the three are on one line.
pub fn cross_sign(o: &Point, a: &Point, b: &Point) -> (s: i8)
    ensures
        s == sign_of(cross(*o, *a, *b)),
{
    let ax: i128 = a.x as i128 - o.x as i128;
    let ay: i128 = a.y as i128 - o.y as i128;
    let bx: i128 = b.x as i128 - o.x as i128;
    let by: i128 = b.y as i128 - o.y as i128;
    let (left_negative, left) = product(ax, by);
    let (right_negative, right) = product(ay, bx);
    if left_negative && !right_negative {
        -1
    } else if !left_negative && right_negative {
        1
    } else if left == right {
        0
    } else if (left < right) == left_negative {
        1
    } else {
        -1
    }
}

} // verus!
