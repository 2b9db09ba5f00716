//! Integer points, rectangles of points, and fixed-point distances.

use vstd::arithmetic::power2::{
    lemma2_to64, lemma2_to64_rest, lemma_pow2_strictly_increases, lemma_pow2_unfold, pow2,
};
use vstd::prelude::*;

verus! {

/// A cell of the plane: `(x, y)`.
pub type Point2D = (isize, isize);

/// A cost in units of `1 / COST_UNIT` of a cell's side. `INFINITE_COST`
/// stands for "no route known"; sums saturate there.
pub type Cost = u128;

/// The cost of one cell's side: 2^32.
pub const COST_UNIT: u128 = 0x1_0000_0000;

/// The cost that no finite route has.
pub const INFINITE_COST: u128 = u128::MAX;

/// `p` lies in the half-open rectangle `bounds = (min, max)`.
pub open spec fn in_bounds(p: Point2D, bounds: (Point2D, Point2D)) -> bool {
    &&& bounds.0.0 <= p.0 < bounds.1.0
    &&& bounds.0.1 <= p.1 < bounds.1.1
}

/// A rectangle that a dense grid can cover: it is not inverted, and each
/// of its sides fits `isize`.
pub open spec fn valid_extent(bounds: (Point2D, Point2D)) -> bool {
    &&& 0 <= bounds.1.0 - bounds.0.0 <= isize::MAX
    &&& 0 <= bounds.1.1 - bounds.0.1 <= isize::MAX
}

/// The two points are no further apart, along either axis, than `isize`
/// can count. Any two points of one valid rectangle are.
pub open spec fn within_reach(a: Point2D, b: Point2D) -> bool {
    &&& -isize::MAX <= a.0 - b.0 <= isize::MAX
    &&& -isize::MAX <= a.1 - b.1 <= isize::MAX
}

/// The square of the Euclidean distance between two points.
pub open spec fn squared_distance(a: Point2D, b: Point2D) -> int {
    (a.0 - b.0) * (a.0 - b.0) + (a.1 - b.1) * (a.1 - b.1)
}

/// `r` is the integer part of the square root of `n`.
pub open spec fn is_floor_sqrt(n: int, r: int) -> bool {
    0 <= r && r * r <= n < (r + 1) * (r + 1)
}

/// The integer part of the square root of `n`.
pub open spec fn floor_sqrt(n: int) -> int {
    choose|r: int| is_floor_sqrt(n, r)
}

/// The Euclidean distance between two points as a cost: the distance times
/// `COST_UNIT`, rounded down.
pub open spec fn distance(a: Point2D, b: Point2D) -> Cost {
    floor_sqrt(squared_distance(a, b) * COST_UNIT * COST_UNIT) as Cost
}

/// The sum of two costs, held at `INFINITE_COST` once it gets there.
pub open spec fn cost_sum(a: Cost, b: Cost) -> Cost {
    if a + b >= INFINITE_COST {
        INFINITE_COST
    } else {
        (a + b) as u128
    }
}

/// Every number from 0 on has a square root with an integer part.
pub proof fn lemma_floor_sqrt_exists(n: int)
    requires
        n >= 0,
    ensures
        is_floor_sqrt(n, floor_sqrt(n)),
    decreases n,
{
    if n == 0 {
        assert(is_floor_sqrt(0, 0));
    } else {
        lemma_floor_sqrt_exists(n - 1);
        let r = floor_sqrt(n - 1);
        if n < (r + 1) * (r + 1) {
            assert(is_floor_sqrt(n, r));
        } else {
            assert((r + 2) * (r + 2) > (r + 1) * (r + 1)) by (nonlinear_arith)
                requires
                    r >= 0,
            ;
            assert(is_floor_sqrt(n, r + 1));
        }
    }
}

/// Only one number is the integer part of a square root.
pub proof fn lemma_floor_sqrt_unique(n: int, r: int)
    requires
        is_floor_sqrt(n, r),
    ensures
        floor_sqrt(n) == r,
{
    let s = floor_sqrt(n);
    assert(is_floor_sqrt(n, s));
    if s < r {
        assert((s + 1) * (s + 1) <= r * r) by (nonlinear_arith)
            requires
                0 <= s,
                s + 1 <= r,
        ;
    }
    if r < s {
        assert((r + 1) * (r + 1) <= s * s) by (nonlinear_arith)
            requires
                0 <= r,
                r + 1 <= s,
        ;
    }
}

/// Any two points of a valid rectangle are within reach of each other.
pub proof fn lemma_in_bounds_within_reach(a: Point2D, b: Point2D, bounds: (Point2D, Point2D))
    requires
        valid_extent(bounds),
        in_bounds(a, bounds),
        in_bounds(b, bounds),
    ensures
        within_reach(a, b),
{
}

/// Whether `p` lies in the half-open rectangle `bounds`.
pub fn is_in_bounds(p: Point2D, bounds: (Point2D, Point2D)) -> (r: bool)
    ensures
        r == in_bounds(p, bounds),
{
    p.0 < bounds.1.0 && p.1 < bounds.1.1 && p.0 >= bounds.0.0 && p.1 >= bounds.0.1
}

/// Adds two costs; the sum stays at `INFINITE_COST` once it gets there.
pub fn add_costs(a: Cost, b: Cost) -> (r: Cost)
    ensures
        r == cost_sum(a, b),
{
    if a >= INFINITE_COST - b {
        INFINITE_COST
    } else {
        a + b
    }
}

/// The distance between `a` and `b` along one axis.
fn axis_gap(a: isize, b: isize) -> (r: u128)
    ensures
        r == if a >= b { a - b } else { b - a },
{
    if a >= b {
        (a as i128 - b as i128) as u128
    } else {
        (b as i128 - a as i128) as u128
    }
}

/// The integer part of the square root of `n`.
fn integer_root(n: u128) -> (r: u128)
    ensures
        is_floor_sqrt(n as int, r as int),
        r < 0x1_0000_0000_0000_0000,
{
    let mut lo: u128 = 0;
    let mut hi: u128 = 0x1_0000_0000_0000_0000;
    assert(n < hi * hi) by (nonlinear_arith)
        requires
            n <= u128::MAX,
            hi == 0x1_0000_0000_0000_0000,
    ;
    while hi - lo > 1
        invariant
            lo < hi <= 0x1_0000_0000_0000_0000,
            lo * lo <= n < hi * hi,
        decreases hi - lo,
    {
        let mid: u128 = lo + (hi - lo) / 2;
        assert(mid * mid <= 0xffff_ffff_ffff_ffff * 0xffff_ffff_ffff_ffff) by (nonlinear_arith)
            requires
                0 <= mid <= 0xffff_ffff_ffff_ffff,
        ;
        if mid * mid <= n {
            lo = mid;
        } else {
            hi = mid;
        }
    }
    lo
}

/// The integer part of the square root of `n * 2^64`: the square root of
/// `n` with 32 binary places.
fn scaled_root(n: u128) -> (r: u128)
    ensures
        r == floor_sqrt(n * COST_UNIT * COST_UNIT),
{
    let mut r: u128 = integer_root(n);
    let mut rem: u128 = n - r * r;
    let mut half: u128 = 1;
    let mut i: u32 = 0;
    proof {
        lemma2_to64();
        assert(rem <= 2 * r) by (nonlinear_arith)
            requires
                rem == n - r * r,
                n < (r + 1) * (r + 1),
        ;
    }
    while i < 32
        invariant
            i <= 32,
            half == pow2(i as nat),
            half <= 0x1_0000_0000,
            r < 0x1_0000_0000_0000_0000 * half,
            rem <= 2 * r,
            r * r + rem == n * half * half,
        decreases 32 - i,
    {
        proof {
            lemma_pow2_unfold((i + 1) as nat);
            lemma2_to64();
            lemma2_to64_rest();
            if i < 31 {
                lemma_pow2_strictly_increases((i + 1) as nat, 32);
            }
        }
        let ghost r0 = r;
        let ghost rem0 = rem;
        let ghost half0 = half;
        rem = 4 * rem;
        r = 2 * r;
        if rem >= 2 * r + 1 {
            rem = rem - (2 * r + 1);
            r = r + 1;
        }
        half = 2 * half;
        i = i + 1;
        assert(r * r + rem == n * half * half) by (nonlinear_arith)
            requires
                r0 * r0 + rem0 == n * half0 * half0,
                half == 2 * half0,
                (r == 2 * r0 && rem == 4 * rem0) || (r == 2 * r0 + 1 && rem == 4 * rem0 - (4 * r0
                    + 1)),
        ;
    }
    proof {
        lemma2_to64();
        assert(half == COST_UNIT);
        assert((r + 1) * (r + 1) == r * r + 2 * r + 1) by (nonlinear_arith);
        lemma_floor_sqrt_unique(n * COST_UNIT * COST_UNIT, r as int);
    }
    r
}

/// The Euclidean distance between two points, as a cost.
pub fn euclidean_distance(a: &Point2D, b: &Point2D) -> (r: Cost)
    requires
        within_reach(*a, *b),
    ensures
        r == distance(*a, *b),
{
    let dx: u128 = axis_gap(a.0, b.0);
    let dy: u128 = axis_gap(a.1, b.1);
    assert(dx * dx <= 0x7fff_ffff_ffff_ffff * 0x7fff_ffff_ffff_ffff) by (nonlinear_arith)
        requires
            0 <= dx <= 0x7fff_ffff_ffff_ffff,
    ;
    assert(dy * dy <= 0x7fff_ffff_ffff_ffff * 0x7fff_ffff_ffff_ffff) by (nonlinear_arith)
        requires
            0 <= dy <= 0x7fff_ffff_ffff_ffff,
    ;
    assert(dx * dx == (a.0 - b.0) * (a.0 - b.0)) by (nonlinear_arith)
        requires
            dx == a.0 - b.0 || dx == b.0 - a.0,
    ;
    assert(dy * dy == (a.1 - b.1) * (a.1 - b.1)) by (nonlinear_arith)
        requires
            dy == a.1 - b.1 || dy == b.1 - a.1,
    ;
    scaled_root(dx * dx + dy * dy)
}

} // verus!
