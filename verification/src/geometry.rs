//! Points in fixed point, squared distances and integer square roots.

use vstd::prelude::*;
use vstd::arithmetic::div_mod::lemma_fundamental_div_mod;
use vstd::arithmetic::div_mod::lemma_fundamental_div_mod_converse;
use vstd::arithmetic::div_mod::lemma_mod_bound;
use crate::numeral::Fixed;
use crate::numeral::LIMIT;

verus! {

/// A position; each coordinate is a fixed-point value.
#[derive(Clone, Copy, Debug, PartialEq, Eq, Structural)]
pub struct Point3 {
    pub x: Fixed,
    pub y: Fixed,
    pub z: Fixed,
}

impl Point3 {
    /// Whether every coordinate lies strictly between `-LIMIT` and `LIMIT`, as
    /// every coordinate read from a record does.
    pub open spec fn in_range(self) -> bool {
        &&& -LIMIT < self.x < LIMIT
        &&& -LIMIT < self.y < LIMIT
        &&& -LIMIT < self.z < LIMIT
    }

    /// The point with the coordinates `x`, `y` and `z`.
    pub fn new(x: Fixed, y: Fixed, z: Fixed) -> (p: Point3)
        ensures
            p == (Point3 { x, y, z }),
    {
        Point3 { x, y, z }
    }

    /// The point whose coordinates are all zero.
    pub fn origin() -> (p: Point3)
        ensures
            p == (Point3 { x: 0, y: 0, z: 0 }),
    {
        Point3 { x: 0, y: 0, z: 0 }
    }

    /// Whether `self.in_range()` holds.
    pub fn is_in_range(&self) -> (b: bool)
        ensures
            b == self.in_range(),
    {
        -LIMIT < self.x && self.x < LIMIT && -LIMIT < self.y && self.y < LIMIT && -LIMIT < self.z
            && self.z < LIMIT
    }
}

/// The square of the Euclidean distance between `a` and `b`, in squared units.
pub open spec fn squared_distance(a: Point3, b: Point3) -> int {
    (a.x - b.x) * (a.x - b.x) + (a.y - b.y) * (a.y - b.y) + (a.z - b.z) * (a.z - b.z)
}

/// No squared distance is negative.
pub proof fn lemma_squared_distance_nonnegative(a: Point3, b: Point3)
    ensures
        squared_distance(a, b) >= 0,
{
    assert((a.x - b.x) * (a.x - b.x) >= 0) by (nonlinear_arith);
    assert((a.y - b.y) * (a.y - b.y) >= 0) by (nonlinear_arith);
    assert((a.z - b.z) * (a.z - b.z) >= 0) by (nonlinear_arith);
}

/// Whether `r` is the square root of `n` rounded down.
pub open spec fn is_floor_sqrt(r: int, n: int) -> bool {
    0 <= r && r * r <= n < (r + 1) * (r + 1)
}

/// The square root rounded down is unique.
pub proof fn lemma_floor_sqrt_unique(r1: int, r2: int, n: int)
    requires
        is_floor_sqrt(r1, n),
        is_floor_sqrt(r2, n),
    ensures
        r1 == r2,
{
    assert(r1 <= r2) by (nonlinear_arith)
        requires
            0 <= r1,
            0 <= r2,
            r1 * r1 < (r2 + 1) * (r2 + 1),
    ;
    assert(r2 <= r1) by (nonlinear_arith)
        requires
            0 <= r1,
            0 <= r2,
            r2 * r2 < (r1 + 1) * (r1 + 1),
    ;
}

/// The square root rounded down grows with its argument.
pub proof fn lemma_floor_sqrt_monotonic(r1: int, n1: int, r2: int, n2: int)
    requires
        is_floor_sqrt(r1, n1),
        is_floor_sqrt(r2, n2),
        n1 <= n2,
    ensures
        r1 <= r2,
{
    assert(r1 <= r2) by (nonlinear_arith)
        requires
            0 <= r1,
            0 <= r2,
            r1 * r1 < (r2 + 1) * (r2 + 1),
    ;
}

/// The distance between two values along one axis.
fn axis_distance(a: Fixed, b: Fixed) -> (d: u128)
    ensures
        d == if a >= b { a - b } else { b - a },
{
    if a >= b {
        (a as i128 - b as i128) as u128
    } else {
        (b as i128 - a as i128) as u128
    }
}

/// The square of the distance between `a` and `b`.
pub fn squared_distance_between(a: Point3, b: Point3) -> (d: u128)
    requires
        a.in_range(),
    ensures
        d == squared_distance(a, b),
{
    let dx = axis_distance(a.x, b.x);
    let dy = axis_distance(a.y, b.y);
    let dz = axis_distance(a.z, b.z);
    proof {
        lemma_square_bound(dx as int);
        lemma_square_bound(dy as int);
        lemma_square_bound(dz as int);
        lemma_square_of_difference(a.x as int, b.x as int, dx as int);
        lemma_square_of_difference(a.y as int, b.y as int, dy as int);
        lemma_square_of_difference(a.z as int, b.z as int, dz as int);
    }
    dx * dx + dy * dy + dz * dz
}

proof fn lemma_square_bound(d: int)
    by (nonlinear_arith)
    requires
        0 <= d <= 0x8000_0000_0000_0000 + LIMIT,
    ensures
        0 <= d * d <= (0x8000_0000_0000_0000 + LIMIT) * (0x8000_0000_0000_0000 + LIMIT),
        3 * ((0x8000_0000_0000_0000 + LIMIT) * (0x8000_0000_0000_0000 + LIMIT))
            < 0x1_0000_0000_0000_0000_0000_0000_0000_0000,
{
}

proof fn lemma_square_of_difference(a: int, b: int, d: int)
    by (nonlinear_arith)
    requires
        d == a - b || d == b - a,
    ensures
        d * d == (a - b) * (a - b),
{
}

/// `a` divided by `n`, rounded down.
pub fn floor_div(a: i128, n: u64) -> (q: i128)
    requires
        n > 0,
        -0x4000_0000_0000_0000_0000_0000_0000_0000 < a < 0x4000_0000_0000_0000_0000_0000_0000_0000,
    ensures
        q == (a as int) / (n as int),
{
    let d = n as i128;
    if a >= 0 {
        a / d
    } else {
        let m = -a + (d - 1);
        let t = m / d;
        proof {
            let r = m as int % d as int;
            lemma_fundamental_div_mod(m as int, d as int);
            lemma_mod_bound(m as int, d as int);
            assert(a == (-t) * d + (d - 1 - r)) by (nonlinear_arith)
                requires
                    m == d * t + r,
                    m == -a + (d - 1),
            ;
            lemma_fundamental_div_mod_converse(a as int, d as int, -t as int, d - 1 - r);
        }
        -t
    }
}

/// The square root of `n`, rounded down.
pub fn integer_sqrt(n: u128) -> (r: u64)
    ensures
        is_floor_sqrt(r as int, n as int),
{
    let mut lo: u128 = 0;
    let mut hi: u128 = 0x1_0000_0000_0000_0000;
    assert(0x1_0000_0000_0000_0000int * 0x1_0000_0000_0000_0000int
        == 0x1_0000_0000_0000_0000_0000_0000_0000_0000int) by (nonlinear_arith);
    while hi - lo > 1
        invariant
            lo < hi <= 0x1_0000_0000_0000_0000,
            lo * lo <= n < hi * hi,
        decreases hi - lo,
    {
        let mid = lo + (hi - lo) / 2;
        assert(mid * mid <= 0xffff_ffff_ffff_ffff * 0xffff_ffff_ffff_ffff) by (nonlinear_arith)
            requires
                0 <= mid <= 0xffff_ffff_ffff_ffff,
        ;
        if mid * mid <= n {
            lo = mid;
        } else {
            hi = mid;
        }
    }
    lo as u64
}

} // verus!
