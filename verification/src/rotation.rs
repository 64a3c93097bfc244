//! The flight-heading coordinate frame.
//!
//! A [`Rotation`] carries the cosine and sine of the heading angle, each
//! scaled by [`ROT_SCALE`] and rounded to an integer.  [`Rotation::transform`]
//! maps world coordinates into the heading frame and [`Rotation::restore`]
//! maps them back; both divide by the scale with floor rounding, so a
//! round trip reproduces the point up to [`ROUND_TRIP_TOL`] units
//! ([`lemma_rotation_round_trip`]).

use vstd::arithmetic::div_mod::{lemma_fundamental_div_mod, lemma_mod_division_less_than_divisor};
use vstd::prelude::*;

use crate::geo::{in_world_range, Point, MAX_COORD};

verus! {

/// Fixed-point scale of the stored cosine and sine.
pub const ROT_SCALE: i64 = 65536;

/// How far the squared norm of the stored (cosine, sine) pair may stray
/// from an exact unit vector: rounding each component to the nearest
/// multiple of `1 / ROT_SCALE` perturbs the squared norm by less than
/// `2 * ROT_SCALE` scaled units.
pub const ROT_SLACK: i64 = 131072;

/// Largest coordinate magnitude accepted by [`Rotation::restore`].
pub const FRAME_LIMIT: i64 = 8388608;

/// Largest per-coordinate error of a transform/restore round trip.
pub const ROUND_TRIP_TOL: i64 = 35;

/// A rotation into (and out of) the flight-heading frame, stored as the
/// heading's cosine and sine scaled by [`ROT_SCALE`].
#[derive(Clone, Copy, Debug, PartialEq, Eq, Structural)]
pub struct Rotation {
    pub cos_s: i64,
    pub sin_s: i64,
}

/// The stored pair is close to a unit vector of length [`ROT_SCALE`]:
/// exactly what rounding the true cosine and sine produces.
pub open spec fn rotation_wf(r: Rotation) -> bool {
    &&& -ROT_SCALE <= r.cos_s <= ROT_SCALE
    &&& -ROT_SCALE <= r.sin_s <= ROT_SCALE
    &&& ROT_SCALE * ROT_SCALE - ROT_SLACK <= r.cos_s * r.cos_s + r.sin_s * r.sin_s
    &&& r.cos_s * r.cos_s + r.sin_s * r.sin_s <= ROT_SCALE * ROT_SCALE + ROT_SLACK
}

/// Heading-frame x coordinate of `p` under rotation `r`.
pub open spec fn rotate_x(r: Rotation, p: Point) -> int {
    (p.x * r.cos_s + p.y * r.sin_s) / (ROT_SCALE as int)
}

/// Heading-frame y coordinate of `p` under rotation `r`.
pub open spec fn rotate_y(r: Rotation, p: Point) -> int {
    (p.y * r.cos_s - p.x * r.sin_s) / (ROT_SCALE as int)
}

/// World x coordinate of the heading-frame point `q` under rotation `r`.
pub open spec fn restore_x(r: Rotation, q: Point) -> int {
    (q.x * r.cos_s - q.y * r.sin_s) / (ROT_SCALE as int)
}

/// World y coordinate of the heading-frame point `q` under rotation `r`.
pub open spec fn restore_y(r: Rotation, q: Point) -> int {
    (q.x * r.sin_s + q.y * r.cos_s) / (ROT_SCALE as int)
}

/// `p` rotated into the heading frame.
pub open spec fn rotate_point(r: Rotation, p: Point) -> Point {
    Point { x: rotate_x(r, p) as i64, y: rotate_y(r, p) as i64 }
}

/// `q` rotated back into the world frame.
pub open spec fn restore_point(r: Rotation, q: Point) -> Point {
    Point { x: restore_x(r, q) as i64, y: restore_y(r, q) as i64 }
}

/// The point lies inside the coordinate range accepted by
/// [`Rotation::restore`].
pub open spec fn in_frame_range(q: Point) -> bool {
    &&& -FRAME_LIMIT <= q.x <= FRAME_LIMIT
    &&& -FRAME_LIMIT <= q.y <= FRAME_LIMIT
}

/// Floor division of `a` by [`ROT_SCALE`].
fn div_scale(a: i64) -> (q: i64)
    requires
        -0x40000000000000 <= a <= 0x40000000000000,
    ensures
        q == a as int / (ROT_SCALE as int),
{
    proof {
        lemma_fundamental_div_mod(a as int, ROT_SCALE as int);
        lemma_mod_division_less_than_divisor(a as int, ROT_SCALE as int);
    }
    let q = a.checked_div_euclid(ROT_SCALE);
    q.unwrap()
}

impl Rotation {
    /// Builds a rotation from a scaled cosine/sine pair, rejecting pairs
    /// too far from a unit heading vector.
    pub fn new(cos_s: i64, sin_s: i64) -> (r: Option<Rotation>)
        ensures
            r is Some <==> rotation_wf(Rotation { cos_s, sin_s }),
            r matches Some(rot) ==> rot == (Rotation { cos_s, sin_s }),
    {
        if cos_s < -ROT_SCALE || cos_s > ROT_SCALE || sin_s < -ROT_SCALE || sin_s > ROT_SCALE {
            return None;
        }
        proof {
            assert(0 <= cos_s * cos_s <= 0x100000000 && 0 <= sin_s * sin_s <= 0x100000000)
                by (nonlinear_arith)
                requires -65536 <= cos_s <= 65536, -65536 <= sin_s <= 65536;
        }
        let norm = cos_s * cos_s + sin_s * sin_s;
        if ROT_SCALE * ROT_SCALE - ROT_SLACK <= norm && norm <= ROT_SCALE * ROT_SCALE + ROT_SLACK {
            Some(Rotation { cos_s, sin_s })
        } else {
            None
        }
    }

    /// The rotation by a zero heading angle.
    pub fn identity() -> (r: Rotation)
        ensures
            r == (Rotation { cos_s: ROT_SCALE, sin_s: 0 }),
            rotation_wf(r),
    {
        Rotation { cos_s: ROT_SCALE, sin_s: 0 }
    }

    /// Rotates a world point into the heading frame.
    pub fn transform(&self, p: Point) -> (q: Point)
        requires
            rotation_wf(*self),
            in_world_range(p),
        ensures
            q == rotate_point(*self, p),
            q.x == rotate_x(*self, p),
            q.y == rotate_y(*self, p),
            -2 * MAX_COORD - 1 <= q.x <= 2 * MAX_COORD + 1,
            -2 * MAX_COORD - 1 <= q.y <= 2 * MAX_COORD + 1,
    {
        proof {
            assert(-0x1000000000 <= p.x * self.cos_s <= 0x1000000000 && -0x1000000000 <= p.y
                * self.sin_s <= 0x1000000000 && -0x1000000000 <= p.y * self.cos_s
                <= 0x1000000000 && -0x1000000000 <= p.x * self.sin_s <= 0x1000000000)
                by (nonlinear_arith)
                requires
                    -1048576 <= p.x <= 1048576,
                    -1048576 <= p.y <= 1048576,
                    -65536 <= self.cos_s <= 65536,
                    -65536 <= self.sin_s <= 65536;
        }
        let nx = p.x * self.cos_s + p.y * self.sin_s;
        let ny = p.y * self.cos_s - p.x * self.sin_s;
        let qx = div_scale(nx);
        let qy = div_scale(ny);
        proof {
            lemma_div_scale_bound(nx as int, 2 * MAX_COORD as int);
            lemma_div_scale_bound(ny as int, 2 * MAX_COORD as int);
        }
        Point { x: qx, y: qy }
    }

    /// Rotates a heading-frame point back into the world frame.
    pub fn restore(&self, q: Point) -> (p: Point)
        requires
            rotation_wf(*self),
            in_frame_range(q),
        ensures
            p == restore_point(*self, q),
            p.x == restore_x(*self, q),
            p.y == restore_y(*self, q),
            -2 * FRAME_LIMIT - 1 <= p.x <= 2 * FRAME_LIMIT + 1,
            -2 * FRAME_LIMIT - 1 <= p.y <= 2 * FRAME_LIMIT + 1,
    {
        proof {
            assert(-0x8000000000 <= q.x * self.cos_s <= 0x8000000000 && -0x8000000000
                <= q.y * self.sin_s <= 0x8000000000 && -0x8000000000 <= q.x * self.sin_s
                <= 0x8000000000 && -0x8000000000 <= q.y * self.cos_s <= 0x8000000000)
                by (nonlinear_arith)
                requires
                    -8388608 <= q.x <= 8388608,
                    -8388608 <= q.y <= 8388608,
                    -65536 <= self.cos_s <= 65536,
                    -65536 <= self.sin_s <= 65536;
        }
        let nx = q.x * self.cos_s - q.y * self.sin_s;
        let ny = q.x * self.sin_s + q.y * self.cos_s;
        let px = div_scale(nx);
        let py = div_scale(ny);
        proof {
            lemma_div_scale_bound(nx as int, 2 * FRAME_LIMIT as int);
            lemma_div_scale_bound(ny as int, 2 * FRAME_LIMIT as int);
        }
        Point { x: px, y: py }
    }
}

/// Dividing a value of magnitude at most `bound * ROT_SCALE` by the scale
/// yields a quotient of magnitude at most `bound + 1`.
proof fn lemma_div_scale_bound(a: int, bound: int)
    requires
        bound >= 0,
        -bound * (ROT_SCALE as int) <= a <= bound * (ROT_SCALE as int),
    ensures
        -bound - 1 <= a / (ROT_SCALE as int) <= bound + 1,
{
    let s = ROT_SCALE as int;
    lemma_fundamental_div_mod(a, s);
    lemma_mod_division_less_than_divisor(a, s);
    let q = a / s;
    let m = a % s;
    assert(s * q == a - m);
    if q > bound {
        assert(s * q >= s * (bound + 1)) by (nonlinear_arith)
            requires q >= bound + 1, s == 65536;
        assert(s * (bound + 1) == s * bound + s) by (nonlinear_arith);
        assert(bound * s == s * bound) by (nonlinear_arith);
        assert(false);
    }
    if q < -bound - 1 {
        assert(s * q <= s * (-bound - 2)) by (nonlinear_arith)
            requires q <= -bound - 2, s == 65536;
        assert(s * (-bound - 2) == -(s * bound) - 2 * s) by (nonlinear_arith);
        assert(bound * s == s * bound) by (nonlinear_arith);
        assert(false);
    }
}

/// Rotation round trip: restoring a transformed point reproduces the
/// original point up to [`ROUND_TRIP_TOL`] units in each coordinate.  The
/// residual error stems from the rounding of the scaled cosine/sine pair
/// and the floor rounding of the two divisions.
pub proof fn lemma_rotation_round_trip(r: Rotation, p: Point)
    requires
        rotation_wf(r),
        in_world_range(p),
    ensures
        -ROUND_TRIP_TOL <= restore_x(r, rotate_point(r, p)) - p.x <= ROUND_TRIP_TOL,
        -ROUND_TRIP_TOL <= restore_y(r, rotate_point(r, p)) - p.y <= ROUND_TRIP_TOL,
{
    let s = ROT_SCALE as int;
    let c = r.cos_s as int;
    let sn = r.sin_s as int;
    let x = p.x as int;
    let y = p.y as int;

    let nx = x * c + y * sn;
    let ny = y * c - x * sn;
    lemma_fundamental_div_mod(nx, s);
    lemma_mod_division_less_than_divisor(nx, s);
    lemma_fundamental_div_mod(ny, s);
    lemma_mod_division_less_than_divisor(ny, s);
    let qx = nx / s;
    let qy = ny / s;
    let m1 = nx % s;
    let m2 = ny % s;

    assert(qx == rotate_x(r, p));
    assert(qy == rotate_y(r, p));
    assert(-2 * MAX_COORD * s <= nx <= 2 * MAX_COORD * s) by (nonlinear_arith)
        requires
            -1048576 <= x <= 1048576,
            -1048576 <= y <= 1048576,
            -65536 <= c <= 65536,
            -65536 <= sn <= 65536,
            s == 65536,
            nx == x * c + y * sn;
    assert(-2 * MAX_COORD * s <= ny <= 2 * MAX_COORD * s) by (nonlinear_arith)
        requires
            -1048576 <= x <= 1048576,
            -1048576 <= y <= 1048576,
            -65536 <= c <= 65536,
            -65536 <= sn <= 65536,
            s == 65536,
            ny == y * c - x * sn;
    lemma_div_scale_bound(nx, 2 * MAX_COORD as int);
    lemma_div_scale_bound(ny, 2 * MAX_COORD as int);
    let q = rotate_point(r, p);
    assert(q.x == qx && q.y == qy);

    let rx = qx * c - qy * sn;
    let ry = qx * sn + qy * c;
    lemma_fundamental_div_mod(rx, s);
    lemma_mod_division_less_than_divisor(rx, s);
    lemma_fundamental_div_mod(ry, s);
    lemma_mod_division_less_than_divisor(ry, s);
    let m3 = rx % s;
    let m4 = ry % s;
    let px = rx / s;
    let py = ry / s;
    assert(px == restore_x(r, q));
    assert(py == restore_y(r, q));

    let d = c * c + sn * sn - s * s;

    assert(s * rx == (nx - m1) * c - (ny - m2) * sn) by (nonlinear_arith)
        requires
            rx == qx * c - qy * sn,
            nx == s * qx + m1,
            ny == s * qy + m2;
    assert((nx - m1) * c - (ny - m2) * sn == x * (c * c + sn * sn) - m1 * c + m2 * sn)
        by (nonlinear_arith)
        requires
            nx == x * c + y * sn,
            ny == y * c - x * sn;
    assert(s * s * px == s * rx - s * m3) by (nonlinear_arith)
        requires rx == s * px + m3;
    assert(x * (c * c + sn * sn) == x * (s * s) + x * d) by (nonlinear_arith)
        requires d == c * c + sn * sn - s * s;
    assert(s * s * px == x * (s * s) + x * d - m1 * c + m2 * sn - s * m3);

    assert(s * ry == (nx - m1) * sn + (ny - m2) * c) by (nonlinear_arith)
        requires
            ry == qx * sn + qy * c,
            nx == s * qx + m1,
            ny == s * qy + m2;
    assert((nx - m1) * sn + (ny - m2) * c == y * (c * c + sn * sn) - m1 * sn - m2 * c)
        by (nonlinear_arith)
        requires
            nx == x * c + y * sn,
            ny == y * c - x * sn;
    assert(s * s * py == s * ry - s * m4) by (nonlinear_arith)
        requires ry == s * py + m4;
    assert(y * (c * c + sn * sn) == y * (s * s) + y * d) by (nonlinear_arith)
        requires d == c * c + sn * sn - s * s;
    assert(s * s * py == y * (s * s) + y * d - m1 * sn - m2 * c - s * m4);

    let ex = x * d - m1 * c + m2 * sn - s * m3;
    let ey = y * d - m1 * sn - m2 * c - s * m4;
    assert(-150323855360 <= ex <= 150323855360) by (nonlinear_arith)
        requires
            ex == x * d - m1 * c + m2 * sn - s * m3,
            -1048576 <= x <= 1048576,
            -131072 <= d <= 131072,
            -65536 <= c <= 65536,
            -65536 <= sn <= 65536,
            0 <= m1 < 65536,
            0 <= m2 < 65536,
            0 <= m3 < 65536,
            s == 65536;
    assert(-150323855360 <= ey <= 150323855360) by (nonlinear_arith)
        requires
            ey == y * d - m1 * sn - m2 * c - s * m4,
            -1048576 <= y <= 1048576,
            -131072 <= d <= 131072,
            -65536 <= c <= 65536,
            -65536 <= sn <= 65536,
            0 <= m1 < 65536,
            0 <= m2 < 65536,
            0 <= m4 < 65536,
            s == 65536;

    assert(s * s * (px - x) == ex) by (nonlinear_arith)
        requires
            s * s * px == x * (s * s) + ex,
            s == 65536;
    assert(s * s * (py - y) == ey) by (nonlinear_arith)
        requires
            s * s * py == y * (s * s) + ey,
            s == 65536;

    assert(-35 <= px - x <= 35) by (nonlinear_arith)
        requires
            s * s * (px - x) == ex,
            -150323855360 <= ex <= 150323855360,
            s == 65536;
    assert(-35 <= py - y <= 35) by (nonlinear_arith)
        requires
            s * s * (py - y) == ey,
            -150323855360 <= ey <= 150323855360,
            s == 65536;
}

} // verus!
