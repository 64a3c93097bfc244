//! Planar points and the fixed-point Euclidean metric.
//!
//! Coordinates are integers in a unit chosen by the caller.  The distance
//! between two points is the Euclidean distance rounded down to an integer
//! number of units ([`dist`]), so exact right-triangle distances such as
//! 3-4-5 come out exactly.

use vstd::prelude::*;

verus! {

/// Largest coordinate magnitude accepted for world-space input points.
pub const MAX_COORD: i64 = 1048576;

/// Largest coordinate magnitude on which the metric helpers operate.
/// Rotated-frame and restored points stay inside this range whenever the
/// inputs stay inside [`MAX_COORD`].
pub const METRIC_LIMIT: i64 = 16777216;

/// Strict upper bound on any single distance between two points in metric
/// range: `sqrt(2 * (2 * METRIC_LIMIT)^2) < DIST_BOUND`.
pub const DIST_BOUND: u64 = 67108864;

/// Largest number of points accepted by the route-length helpers; keeps
/// summed distances well inside `u64`.
pub const MAX_ROUTE_POINTS: usize = 1073741824;

/// A point of the planar frame, in fixed-point units.
#[derive(Clone, Copy, Debug, PartialEq, Eq, Structural)]
pub struct Point {
    pub x: i64,
    pub y: i64,
}

impl DeepView for Point {
    type V = Point;

    open spec fn deep_view(&self) -> Point {
        *self
    }
}

/// The point lies inside the coordinate range of world-space inputs.
pub open spec fn in_world_range(p: Point) -> bool {
    &&& -MAX_COORD <= p.x <= MAX_COORD
    &&& -MAX_COORD <= p.y <= MAX_COORD
}

/// The point lies inside the range on which the metric helpers work.
pub open spec fn in_metric_range(p: Point) -> bool {
    &&& -METRIC_LIMIT <= p.x <= METRIC_LIMIT
    &&& -METRIC_LIMIT <= p.y <= METRIC_LIMIT
}

/// Every point of the sequence lies inside the metric range.
pub open spec fn all_in_metric_range(s: Seq<Point>) -> bool {
    forall|i: int| 0 <= i < s.len() ==> in_metric_range(#[trigger] s[i])
}

/// Squared Euclidean distance between two points.
pub open spec fn dist_sq(a: Point, b: Point) -> int {
    (a.x - b.x) * (a.x - b.x) + (a.y - b.y) * (a.y - b.y)
}

/// Integer square root, rounded down.
pub open spec fn sqrt_floor(n: nat) -> nat
    decreases n,
{
    if n == 0 {
        0
    } else {
        let r = sqrt_floor((n - 1) as nat);
        if (r + 1) * (r + 1) <= n {
            r + 1
        } else {
            r
        }
    }
}

/// Euclidean distance between two points, rounded down to whole units.
pub open spec fn dist(a: Point, b: Point) -> nat {
    sqrt_floor(dist_sq(a, b) as nat)
}

/// `sqrt_floor(n)` is the largest integer whose square is at most `n`.
pub proof fn lemma_sqrt_floor_bounds(n: nat)
    ensures
        sqrt_floor(n) * sqrt_floor(n) <= n,
        n < (sqrt_floor(n) + 1) * (sqrt_floor(n) + 1),
    decreases n,
{
    if n == 0 {
        assert(sqrt_floor(n) == 0);
        assert(sqrt_floor(n) * sqrt_floor(n) <= n) by (nonlinear_arith)
            requires sqrt_floor(n) == 0, n == 0;
        assert(n < (sqrt_floor(n) + 1) * (sqrt_floor(n) + 1)) by (nonlinear_arith)
            requires sqrt_floor(n) == 0, n == 0;
    } else {
        lemma_sqrt_floor_bounds((n - 1) as nat);
        let r = sqrt_floor((n - 1) as nat);
        if (r + 1) * (r + 1) <= n {
            assert(sqrt_floor(n) == r + 1);
            assert(n <= (r + 1) * (r + 1));
            assert((r + 1) * (r + 1) < (r + 2) * (r + 2)) by (nonlinear_arith);
            assert(sqrt_floor(n) * sqrt_floor(n) <= n);
            assert(n < (sqrt_floor(n) + 1) * (sqrt_floor(n) + 1));
        } else {
            assert(sqrt_floor(n) == r);
            assert(n < (r + 1) * (r + 1));
            assert(sqrt_floor(n) * sqrt_floor(n) <= n);
            assert(n < (sqrt_floor(n) + 1) * (sqrt_floor(n) + 1));
        }
    }
}

/// The bounds of `lemma_sqrt_floor_bounds` characterize `sqrt_floor` uniquely.
pub proof fn lemma_sqrt_floor_unique(n: nat, r: nat)
    requires
        r * r <= n,
        n < (r + 1) * (r + 1),
    ensures
        r == sqrt_floor(n),
{
    lemma_sqrt_floor_bounds(n);
    let s = sqrt_floor(n);
    if r < s {
        assert(false) by (nonlinear_arith)
            requires r < s, r * r <= n, n < (r + 1) * (r + 1), s * s <= n;
    }
    if s < r {
        assert(false) by (nonlinear_arith)
            requires s < r, s * s <= n, n < (s + 1) * (s + 1), r * r <= n;
    }
}

/// The distance between two points in metric range is below [`DIST_BOUND`].
pub proof fn lemma_dist_bound(a: Point, b: Point)
    requires
        in_metric_range(a),
        in_metric_range(b),
    ensures
        dist(a, b) < DIST_BOUND,
        0 <= dist_sq(a, b) <= 0x8000000000000,
{
    assert(0 <= dist_sq(a, b) <= 0x8000000000000) by (nonlinear_arith)
        requires in_metric_range(a), in_metric_range(b);
    lemma_sqrt_floor_bounds(dist_sq(a, b) as nat);
    let r = sqrt_floor(dist_sq(a, b) as nat);
    if r >= DIST_BOUND {
        assert(r * r > 0x8000000000000) by (nonlinear_arith)
            requires r >= 67108864;
    }
}

/// Integer square root, rounded down.
pub fn isqrt(n: u64) -> (r: u64)
    ensures
        r == sqrt_floor(n as nat),
{
    let mut lo: u64 = 0;
    let mut hi: u64 = 4294967295;
    while lo < hi
        invariant
            lo <= hi <= 4294967295,
            lo * lo <= n,
            (hi + 1) * (hi + 1) > n,
        decreases hi - lo,
    {
        let mid = lo + (hi - lo + 1) / 2;
        proof {
            assert(mid * mid <= 4294967295u64 * 4294967295u64) by (nonlinear_arith)
                requires mid <= 4294967295u64;
        }
        let sq = (mid as u128) * (mid as u128);
        if sq <= n as u128 {
            lo = mid;
        } else {
            hi = mid - 1;
        }
    }
    proof {
        lemma_sqrt_floor_unique(n as nat, lo as nat);
    }
    lo
}

/// Euclidean distance between two points, rounded down to whole units.
pub fn euclidean_distance(a: &Point, b: &Point) -> (r: u64)
    requires
        in_metric_range(*a),
        in_metric_range(*b),
    ensures
        r == dist(*a, *b),
        r < DIST_BOUND,
{
    let dx = a.x - b.x;
    let dy = a.y - b.y;
    proof {
        assert(0 <= dx * dx <= 0x4000000000000 && 0 <= dy * dy <= 0x4000000000000)
            by (nonlinear_arith)
            requires -33554432 <= dx <= 33554432, -33554432 <= dy <= 33554432;
        lemma_dist_bound(*a, *b);
    }
    let sq = (dx * dx + dy * dy) as u64;
    isqrt(sq)
}

} // verus!
