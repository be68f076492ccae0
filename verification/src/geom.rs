//! Plane geometry over fixed-point coordinates.
//!
//! A coordinate is a latitude or longitude in micro-degrees (one unit is
//! 1e-6 degree), held in an `i64` and bounded by [`COORD_LIMIT`]. The bound
//! keeps every squared distance comfortably inside `i64` range, so distances
//! are exact. Edge costs are floor-of-Euclidean integer distances.

use vstd::prelude::*;

verus! {

/// Largest admissible coordinate magnitude, in micro-degrees. Every
/// geographic latitude (±90°) or longitude (±180°) fits within it.
pub const COORD_LIMIT: i64 = 200_000_000;

/// Largest squared distance between two in-range points:
/// `2 * (2 * COORD_LIMIT)^2`.
pub const SQ_DIST_LIMIT: i64 = 320_000_000_000_000_000;

/// Strict upper bound on `dist_floor` between two in-range points,
/// since `EDGE_COST_LIMIT^2 > SQ_DIST_LIMIT`.
pub const EDGE_COST_LIMIT: u64 = 600_000_000;

/// A (latitude, longitude) pair in micro-degrees.
#[derive(Clone, Copy, PartialEq, Eq, Structural, Debug)]
pub struct Point {
    pub lat: i64,
    pub lon: i64,
}

/// A coordinate the library accepts; the finite-coordinate boundary check.
pub open spec fn coord_ok(c: i64) -> bool {
    -COORD_LIMIT <= c <= COORD_LIMIT
}

/// Both coordinates of a point are in range.
pub open spec fn pt_ok(p: Point) -> bool {
    coord_ok(p.lat) && coord_ok(p.lon)
}

/// Squared Euclidean distance between `(ax, ay)` and `(bx, by)`.
pub open spec fn sq_dist(ax: int, ay: int, bx: int, by: int) -> int {
    (ax - bx) * (ax - bx) + (ay - by) * (ay - by)
}

/// `r` is the integer square root (rounded down) of `n`.
pub open spec fn is_sqrt_floor(n: int, r: int) -> bool {
    0 <= r && r * r <= n && n < (r + 1) * (r + 1)
}

/// The integer square root of `n`, rounded down.
pub open spec fn sqrt_floor(n: int) -> int {
    choose|r: int| is_sqrt_floor(n, r)
}

pub proof fn lemma_sq_dist_nonneg(ax: int, ay: int, bx: int, by: int)
    ensures
        sq_dist(ax, ay, bx, by) >= 0,
{
    assert((ax - bx) * (ax - bx) >= 0) by (nonlinear_arith);
    assert((ay - by) * (ay - by) >= 0) by (nonlinear_arith);
}

pub proof fn lemma_sq_dist_bound(ax: int, ay: int, bx: int, by: int)
    requires
        -COORD_LIMIT <= ax <= COORD_LIMIT,
        -COORD_LIMIT <= ay <= COORD_LIMIT,
        -COORD_LIMIT <= bx <= COORD_LIMIT,
        -COORD_LIMIT <= by <= COORD_LIMIT,
    ensures
        0 <= sq_dist(ax, ay, bx, by) <= SQ_DIST_LIMIT,
{
    lemma_sq_dist_nonneg(ax, ay, bx, by);
    assert((ax - bx) * (ax - bx) <= 160_000_000_000_000_000) by (nonlinear_arith)
        requires
            -400_000_000 <= ax - bx <= 400_000_000,
    ;
    assert((ay - by) * (ay - by) <= 160_000_000_000_000_000) by (nonlinear_arith)
        requires
            -400_000_000 <= ay - by <= 400_000_000,
    ;
}

/// The integer square root is unique, so `sqrt_floor` is well defined.
pub proof fn lemma_sqrt_floor_unique(n: int, r1: int, r2: int)
    requires
        is_sqrt_floor(n, r1),
        is_sqrt_floor(n, r2),
    ensures
        r1 == r2,
{
    if r1 < r2 {
        assert((r1 + 1) * (r1 + 1) <= r2 * r2) by (nonlinear_arith)
            requires
                0 <= r1,
                r1 + 1 <= r2,
        ;
    }
    if r2 < r1 {
        assert((r2 + 1) * (r2 + 1) <= r1 * r1) by (nonlinear_arith)
            requires
                0 <= r2,
                r2 + 1 <= r1,
        ;
    }
}

/// Every nonnegative integer has an integer square root, so `sqrt_floor`
/// satisfies its defining property.
pub proof fn lemma_sqrt_exists(n: int)
    requires
        n >= 0,
    ensures
        is_sqrt_floor(n, sqrt_floor(n)),
    decreases n,
{
    if n == 0 {
        assert(is_sqrt_floor(0, 0));
    } else {
        lemma_sqrt_exists(n - 1);
        let r = sqrt_floor(n - 1);
        if (r + 1) * (r + 1) <= n {
            assert(is_sqrt_floor(n, r + 1)) by (nonlinear_arith)
                requires
                    0 <= r,
                    r * r <= n - 1,
                    n - 1 < (r + 1) * (r + 1),
                    (r + 1) * (r + 1) <= n,
            ;
        } else {
            assert(is_sqrt_floor(n, r));
        }
    }
    let w = choose|w: int| is_sqrt_floor(n, w);
    assert(is_sqrt_floor(n, w));
}

/// Any witness of `is_sqrt_floor` is `sqrt_floor` itself.
pub proof fn lemma_sqrt_floor_is(n: int, r: int)
    requires
        is_sqrt_floor(n, r),
    ensures
        sqrt_floor(n) == r,
{
    let w = choose|w: int| is_sqrt_floor(n, w);
    lemma_sqrt_floor_unique(n, w, r);
}

/// Exact squared Euclidean distance of two in-range coordinate pairs.
pub fn sq_dist_i64(ax: i64, ay: i64, bx: i64, by: i64) -> (r: i64)
    requires
        coord_ok(ax),
        coord_ok(ay),
        coord_ok(bx),
        coord_ok(by),
    ensures
        r == sq_dist(ax as int, ay as int, bx as int, by as int),
        0 <= r <= SQ_DIST_LIMIT,
{
    proof {
        lemma_sq_dist_bound(ax as int, ay as int, bx as int, by as int);
    }
    let dx: i64 = ax - bx;
    let dy: i64 = ay - by;
    assert(dx * dx <= 160_000_000_000_000_000 && dx * dx >= 0) by (nonlinear_arith)
        requires
            -400_000_000 <= dx <= 400_000_000,
    ;
    assert(dy * dy <= 160_000_000_000_000_000 && dy * dy >= 0) by (nonlinear_arith)
        requires
            -400_000_000 <= dy <= 400_000_000,
    ;
    dx * dx + dy * dy
}

/// Integer square root, rounded down, by bisection.
pub fn isqrt(n: i64) -> (r: u64)
    requires
        n >= 0,
    ensures
        is_sqrt_floor(n as int, r as int),
        r == sqrt_floor(n as int),
{
    let nn: u64 = n as u64;
    if nn == 0 {
        proof {
            lemma_sqrt_floor_is(n as int, 0);
        }
        return 0;
    }
    let mut lo: u64 = 0;
    let mut hi: u64 = 3_037_000_500;
    assert(3_037_000_500u64 * 3_037_000_500u64 > 0x7fff_ffff_ffff_ffffu64) by (nonlinear_arith);
    while lo + 1 < hi
        invariant
            lo < hi <= 3_037_000_500,
            lo * lo <= nn,
            nn < hi * hi,
            nn == n,
        decreases hi - lo,
    {
        let mid: u64 = lo + (hi - lo) / 2;
        assert(mid * mid < 0xffff_ffff_ffff_ffffu64) by (nonlinear_arith)
            requires
                mid <= 3_037_000_500,
        ;
        if mid * mid <= nn {
            lo = mid;
        } else {
            hi = mid;
        }
    }
    proof {
        lemma_sqrt_floor_is(n as int, lo as int);
    }
    lo
}

/// Floor of the Euclidean distance between two in-range coordinate pairs:
/// the edge cost of the search.
pub fn dist_floor(ax: i64, ay: i64, bx: i64, by: i64) -> (r: u64)
    requires
        coord_ok(ax),
        coord_ok(ay),
        coord_ok(bx),
        coord_ok(by),
    ensures
        r == sqrt_floor(sq_dist(ax as int, ay as int, bx as int, by as int)),
        r < EDGE_COST_LIMIT,
{
    let sq: i64 = sq_dist_i64(ax, ay, bx, by);
    let r: u64 = isqrt(sq);
    assert(r < EDGE_COST_LIMIT) by (nonlinear_arith)
        requires
            is_sqrt_floor(sq as int, r as int),
            sq <= SQ_DIST_LIMIT,
    ;
    r
}

} // verus!
