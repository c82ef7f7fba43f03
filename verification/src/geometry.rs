//! Light-visibility geometry: tangent points from a point to a circle, and
//! the world-space lightning polygon that is clipped against circular
//! occluders and triangulated as a fan for rendering.
//!
//! Coordinates are fixed-point ticks (`SCALE` ticks per world unit); every
//! function states its result exactly, as integer arithmetic over the tick
//! grid, with rounded divisions pinned by `div_round`.

use vstd::prelude::*;
use crate::num::{
    abs_i, div_round, sqrt_floor, lemma_sqrt_floor_bounds, lemma_div_round_bounds,
    lemma_cauchy_schwarz, lemma_abs_le_of_sq_le, round_div_i128, isqrt_u128,
};

verus! {

/// Ticks per world unit.
pub const SCALE: i64 = 1000;

/// Geometric tolerance in ticks: one tick, i.e. 1/SCALE of a world unit.
pub const EPS: i64 = 1;

/// Bound, in ticks, on the coordinates handed to the geometry functions.
pub const COORD_LIMIT: i64 = 1_000_000;

/// Bound, in ticks, on occluder radii.
pub const RADIUS_LIMIT: i64 = 1_000_000;

/// Bound on the points a lightning polygon can come to hold: an input
/// corner, or a tangent point at most `RADIUS_LIMIT` from an occluder
/// center.
pub const POINT_LIMIT: i64 = 2_000_000;

/// Cap on the vertex count of a lightning polygon, so that fan indices fit
/// in a `u16`.
pub const MAX_POINTS: usize = 10_000;

/// A position in world or polygon-local space, in ticks.
#[derive(Clone, Copy, Debug, PartialEq, Eq, Structural)]
pub struct Point2 {
    pub x: i64,
    pub y: i64,
}

/// A displacement between two positions, in ticks.
#[derive(Clone, Copy, Debug, PartialEq, Eq, Structural)]
pub struct Vector2 {
    pub x: i64,
    pub y: i64,
}

impl Point2 {
    pub fn new(x: i64, y: i64) -> (p: Point2)
        ensures
            p == (Point2 { x, y }),
    {
        Point2 { x, y }
    }
}

impl Vector2 {
    pub fn new(x: i64, y: i64) -> (v: Vector2)
        ensures
            v == (Vector2 { x, y }),
    {
        Vector2 { x, y }
    }
}

/// The coordinates lie within `COORD_LIMIT`.
pub open spec fn in_range(p: Point2) -> bool {
    -COORD_LIMIT <= p.x <= COORD_LIMIT && -COORD_LIMIT <= p.y <= COORD_LIMIT
}

/// The coordinates lie within `POINT_LIMIT`.
pub open spec fn pt_in_limit(p: Point2) -> bool {
    -POINT_LIMIT <= p.x <= POINT_LIMIT && -POINT_LIMIT <= p.y <= POINT_LIMIT
}

/// Two scalars agree within the tolerance `EPS`.
pub open spec fn spec_eq(a: int, b: int) -> bool {
    abs_i(a - b) < EPS
}

/// Scalars agree within the tolerance `EPS`.
pub fn eq(a: i64, b: i64) -> (r: bool)
    requires
        abs_i(a as int) <= 2 * POINT_LIMIT,
        abs_i(b as int) <= 2 * POINT_LIMIT,
    ensures
        r == spec_eq(a as int, b as int),
{
    let d = if a >= b {
        a - b
    } else {
        b - a
    };
    d < EPS
}

/// Squared distance between two points, in ticks squared.
pub open spec fn dist2(c: Point2, p: Point2) -> int {
    (p.x - c.x) * (p.x - c.x) + (p.y - c.y) * (p.y - c.y)
}

/// The external point is inside the circle or within `EPS` of its boundary,
/// so no stable tangent exists.
pub open spec fn tangent_degenerate(c: Point2, r: int, p: Point2) -> bool {
    dist2(c, p) <= (r + EPS) * (r + EPS)
}

/// Numerator of a tangent-point offset from the circle center, scaled by
/// `dist2(c, p)`; `side` (+1 or -1) picks one of the two tangent points.
pub open spec fn tangent_num(c: Point2, r: int, p: Point2, side: int) -> (int, int) {
    let dx = p.x - c.x;
    let dy = p.y - c.y;
    let s = sqrt_floor(dist2(c, p) - r * r);
    (r * r * dx - side * (r * s) * dy, r * r * dy + side * (r * s) * dx)
}

/// One tangent point, as coordinates: the exact rational tangent point
/// rounded to the tick grid.
pub open spec fn tangent_point(c: Point2, r: int, p: Point2, side: int) -> (int, int) {
    let d2 = dist2(c, p);
    let n = tangent_num(c, r, p, side);
    (c.x + div_round(n.0, d2), c.y + div_round(n.1, d2))
}

/// The two tangent points in the order `get_tangent` hands them out.  The
/// quadratic's first root comes first; when the external point and the
/// circle center are horizontally aligned the roots coincide and the pair
/// is ordered by the trigonometric fallback instead, which puts the upper
/// (+y) tangent point first — so the pair swaps exactly when the aligned
/// external point lies to the left of the center.
pub open spec fn tangent_pair(c: Point2, r: int, p: Point2) -> ((int, int), (int, int)) {
    let tp = tangent_point(c, r, p, 1);
    let tm = tangent_point(c, r, p, -1);
    if p.y == c.y && p.x < c.x {
        (tm, tp)
    } else {
        (tp, tm)
    }
}

/// What `get_tangent` returns: both tangent points, or nothing when the
/// external point is inside or within `EPS` of the circle.
pub open spec fn spec_get_tangent(c: Point2, r: int, p: Point2) -> (Option<Point2>, Option<
    Point2,
>) {
    if tangent_degenerate(c, r, p) {
        (None, None)
    } else {
        let pr = tangent_pair(c, r, p);
        (
            Some(Point2 { x: pr.0.0 as i64, y: pr.0.1 as i64 }),
            Some(Point2 { x: pr.1.0 as i64, y: pr.1.1 as i64 }),
        )
    }
}

/// The tangent construction is exact before rounding: for the true square
/// root `s` of `d2 - r * r`, the offset `n` (scaled by `d2`) has squared
/// length `r * r * d2 * d2` — the point lies on the circle — and is
/// orthogonal to the chord back to the external point.  The executable
/// `get_tangent` rounds each coordinate of `n / d2` to the grid, moving it
/// by at most half a tick, within the declared tolerance `EPS`.
pub proof fn lemma_tangent_exact(dx: int, dy: int, r: int, s: int, side: int)
    requires
        r >= 0,
        s >= 0,
        s * s == dx * dx + dy * dy - r * r,
        side == 1 || side == -1,
    ensures
        ({
            let d2 = dx * dx + dy * dy;
            let nx = r * r * dx - side * (r * s) * dy;
            let ny = r * r * dy + side * (r * s) * dx;
            nx * nx + ny * ny == r * r * (d2 * d2) && nx * (nx - d2 * dx) + ny * (ny - d2 * dy)
                == 0
        }),
{
    let d2 = dx * dx + dy * dy;
    let aa = r * r;
    let bb = side * (r * s);
    let nx = r * r * dx - side * (r * s) * dy;
    let ny = r * r * dy + side * (r * s) * dx;
    lemma_cauchy_schwarz(aa, -bb, dx, dy);
    assert(nx == aa * dx + (-bb) * dy && ny == aa * dy - (-bb) * dx) by (nonlinear_arith)
        requires
            nx == r * r * dx - side * (r * s) * dy,
            ny == r * r * dy + side * (r * s) * dx,
            aa == r * r,
            bb == side * (r * s),
    ;
    assert(aa * aa + (-bb) * (-bb) == (r * r) * (r * r + s * s)) by (nonlinear_arith)
        requires
            aa == r * r,
            bb == side * (r * s),
            side == 1 || side == -1,
    ;
    assert(nx * nx + ny * ny == ((r * r) * (r * r + s * s)) * d2) by (nonlinear_arith)
        requires
            (nx * nx) + (ny * ny) == (aa * aa + (-bb) * (-bb)) * (dx * dx + dy * dy),
            aa * aa + (-bb) * (-bb) == (r * r) * (r * r + s * s),
            d2 == dx * dx + dy * dy,
    ;
    assert(((r * r) * (r * r + s * s)) * d2 == r * r * (d2 * d2)) by (nonlinear_arith)
        requires
            r * r + s * s == d2,
    ;
    assert(nx * dx + ny * dy == (r * r) * d2) by (nonlinear_arith)
        requires
            nx == r * r * dx - side * (r * s) * dy,
            ny == r * r * dy + side * (r * s) * dx,
            d2 == dx * dx + dy * dy,
    ;
    assert(nx * (nx - d2 * dx) + ny * (ny - d2 * dy) == (nx * nx + ny * ny) - d2 * (nx * dx + ny
        * dy)) by (nonlinear_arith);
    assert(d2 * ((r * r) * d2) == r * r * (d2 * d2)) by (nonlinear_arith);
}

/// Rounding moves each tangent coordinate by at most half a tick: the
/// returned point times `d2` differs from the exact numerator by at most
/// `d2 / 2` (stated scaled by 2).  Together with `lemma_tangent_exact`
/// this bounds how far the returned tangent point can sit from the circle
/// and from orthogonality: within the tolerance `EPS`.
pub proof fn lemma_tangent_point_rounding(c: Point2, r: int, p: Point2, side: int)
    requires
        1 <= r,
        !tangent_degenerate(c, r, p),
        side == 1 || side == -1,
    ensures
        ({
            let d2 = dist2(c, p);
            let n = tangent_num(c, r, p, side);
            let t = tangent_point(c, r, p, side);
            abs_i(2 * ((t.0 - c.x) * d2) - 2 * n.0) <= d2 && abs_i(2 * ((t.1 - c.y) * d2) - 2
                * n.1) <= d2
        }),
{
    let d2 = dist2(c, p);
    let n = tangent_num(c, r, p, side);
    assert(d2 >= 1) by (nonlinear_arith)
        requires
            d2 > (r + 1) * (r + 1),
            r >= 1,
    ;
    crate::num::lemma_div_round_err(n.0, d2);
    crate::num::lemma_div_round_err(n.1, d2);
}

/// Both tangent-offset numerators are bounded by `r * d2`, so the rounded
/// tangent point stays within `r` ticks of the circle center.
proof fn lemma_tangent_num_bound(c: Point2, r: int, p: Point2, side: int)
    requires
        1 <= r,
        !tangent_degenerate(c, r, p),
        side == 1 || side == -1,
    ensures
        ({
            let d2 = dist2(c, p);
            let n = tangent_num(c, r, p, side);
            abs_i(n.0) <= r * d2 && abs_i(n.1) <= r * d2
        }),
{
    let dx = p.x - c.x;
    let dy = p.y - c.y;
    let d2 = dist2(c, p);
    let m = d2 - r * r;
    assert(d2 > (r + 1) * (r + 1));
    assert((r + 1) * (r + 1) > r * r) by (nonlinear_arith)
        requires
            r >= 1,
    ;
    assert(m >= 0);
    lemma_sqrt_floor_bounds(m);
    let s = sqrt_floor(m);
    let n = tangent_num(c, r, p, side);
    // Cauchy–Schwarz with the vector (r, -side*s) against (dx, dy) and its
    // perpendicular:
    lemma_cauchy_schwarz(r, -side * s, dx, dy);
    lemma_cauchy_schwarz(side * s, r, dx, dy);
    assert(r * r + (-side * s) * (-side * s) <= d2 && (side * s) * (side * s) + r * r <= d2)
        by (nonlinear_arith)
        requires
            s * s <= d2 - r * r,
            side == 1 || side == -1,
    ;
    let ax = r * dx + (-side * s) * dy;
    let ay = (side * s) * dx + r * dy;
    assert(ax * ax <= d2 * (d2 * 1)) by (nonlinear_arith)
        requires
            ax * ax + (r * dy - (-side * s) * dx) * (r * dy - (-side * s) * dx) == (r * r + (-side
                * s) * (-side * s)) * (dx * dx + dy * dy),
            r * r + (-side * s) * (-side * s) <= d2,
            d2 == dx * dx + dy * dy,
            d2 >= 0,
    ;
    assert(ay * ay <= d2 * (d2 * 1)) by (nonlinear_arith)
        requires
            ay * ay + ((side * s) * dy - r * dx) * ((side * s) * dy - r * dx) == ((side * s) * (
            side * s) + r * r) * (dx * dx + dy * dy),
            (side * s) * (side * s) + r * r <= d2,
            d2 == dx * dx + dy * dy,
            d2 >= 0,
    ;
    assert(d2 * (d2 * 1) == d2 * d2) by (nonlinear_arith);
    lemma_abs_le_of_sq_le(ax, d2);
    lemma_abs_le_of_sq_le(ay, d2);
    assert(n.0 == r * ax) by (nonlinear_arith)
        requires
            n.0 == r * r * dx - side * (r * s) * dy,
            ax == r * dx + (-side * s) * dy,
    ;
    assert(n.1 == r * ay) by (nonlinear_arith)
        requires
            n.1 == r * r * dy + side * (r * s) * dx,
            ay == (side * s) * dx + r * dy,
    ;
    assert(abs_i(n.0) <= r * d2 && abs_i(n.1) <= r * d2) by (nonlinear_arith)
        requires
            n.0 == r * ax,
            n.1 == r * ay,
            abs_i(ax) <= d2,
            abs_i(ay) <= d2,
            r >= 1,
    ;
}

/// The rounded tangent point lies within `r` ticks of the circle center in
/// each coordinate.
pub proof fn lemma_tangent_point_bounds(c: Point2, r: int, p: Point2, side: int)
    requires
        1 <= r,
        !tangent_degenerate(c, r, p),
        side == 1 || side == -1,
    ensures
        ({
            let t = tangent_point(c, r, p, side);
            c.x - r <= t.0 <= c.x + r && c.y - r <= t.1 <= c.y + r
        }),
{
    let d2 = dist2(c, p);
    let n = tangent_num(c, r, p, side);
    assert(d2 >= 1) by (nonlinear_arith)
        requires
            d2 > (r + 1) * (r + 1),
            r >= 1,
    ;
    lemma_tangent_num_bound(c, r, p, side);
    assert((-r) * d2 <= n.0 <= r * d2 && (-r) * d2 <= n.1 <= r * d2) by (nonlinear_arith)
        requires
            abs_i(n.0) <= r * d2,
            abs_i(n.1) <= r * d2,
    ;
    lemma_div_round_bounds(n.0, d2, -r, r);
    lemma_div_round_bounds(n.1, d2, -r, r);
}

/// The returned tangent point lies on the circle within a few ticks: its
/// squared distance from the circle center differs from `r * r` by at most
/// `4 * r`, i.e. its distance from the center differs from `r` by at most
/// two ticks — the floor square root and the rounding to the grid each
/// contribute at most one.
pub proof fn lemma_tangent_point_on_circle(c: Point2, r: int, p: Point2, side: int)
    requires
        1 <= r,
        !tangent_degenerate(c, r, p),
        side == 1 || side == -1,
    ensures
        ({
            let t = tangent_point(c, r, p, side);
            let q2 = (t.0 - c.x) * (t.0 - c.x) + (t.1 - c.y) * (t.1 - c.y);
            r * r - 4 * r <= q2 <= r * r + 2 * r
        }),
{
    let dx = p.x - c.x;
    let dy = p.y - c.y;
    let d2 = dist2(c, p);
    assert(d2 >= 1 && d2 > r * r) by (nonlinear_arith)
        requires
            d2 > (r + 1) * (r + 1),
            r >= 1,
    ;
    let m = d2 - r * r;
    lemma_sqrt_floor_bounds(m);
    let s = sqrt_floor(m);
    let u = m - s * s;
    assert(0 <= u <= 2 * s) by (nonlinear_arith)
        requires
            s * s <= m,
            m < (s + 1) * (s + 1),
            u == m - s * s,
    ;
    // |N|^2 == r^2 (r^2 + s^2) d2, whatever s is.
    let aa = r * r;
    let bb = side * (r * s);
    let n = tangent_num(c, r, p, side);
    lemma_cauchy_schwarz(aa, -bb, dx, dy);
    assert(n.0 == aa * dx + (-bb) * dy && n.1 == aa * dy - (-bb) * dx) by (nonlinear_arith)
        requires
            n.0 == r * r * dx - side * (r * s) * dy,
            n.1 == r * r * dy + side * (r * s) * dx,
            aa == r * r,
            bb == side * (r * s),
    ;
    assert(aa * aa + (-bb) * (-bb) == (r * r) * (r * r + s * s)) by (nonlinear_arith)
        requires
            aa == r * r,
            bb == side * (r * s),
            side == 1 || side == -1,
    ;
    let ss = n.0 * n.0 + n.1 * n.1;
    assert(ss == ((r * r) * (r * r + s * s)) * d2) by (nonlinear_arith)
        requires
            ss == (n.0 * n.0) + (n.1 * n.1),
            (n.0 * n.0) + (n.1 * n.1) == (aa * aa + (-bb) * (-bb)) * (dx * dx + dy * dy),
            aa * aa + (-bb) * (-bb) == (r * r) * (r * r + s * s),
            d2 == dx * dx + dy * dy,
    ;
    // r^2 + s^2 == d2 - u, so 4|N|^2 sits within 8 r d2^2 of 4 r^2 d2^2.
    assert(s * r <= d2) by {
        assert((s * r) * (s * r) <= d2 * d2) by (nonlinear_arith)
            requires
                0 <= s,
                1 <= r,
                s * s <= m,
                m <= d2,
                r * r < d2,
        ;
        lemma_abs_le_of_sq_le(s * r, d2);
    }
    assert(0 <= ((r * r) * u) * d2 <= 2 * r * (d2 * d2)) by (nonlinear_arith)
        requires
            0 <= u <= 2 * s,
            s * r <= d2,
            1 <= r,
            1 <= d2,
            0 <= s,
    ;
    assert(4 * ss == 4 * ((r * r) * (d2 * d2)) - 4 * (((r * r) * u) * d2)) by (nonlinear_arith)
        requires
            ss == ((r * r) * (r * r + s * s)) * d2,
            r * r + s * s == d2 - u,
    ;
    // Rounding: 2 q d2 differs from 2 n by at most d2 in each coordinate.
    lemma_tangent_num_bound(c, r, p, side);
    let t = tangent_point(c, r, p, side);
    let qx = t.0 - c.x;
    let qy = t.1 - c.y;
    assert(qx == div_round(n.0, d2) && qy == div_round(n.1, d2));
    crate::num::lemma_div_round_err(n.0, d2);
    crate::num::lemma_div_round_err(n.1, d2);
    let ex = 2 * (qx * d2) - 2 * n.0;
    let ey = 2 * (qy * d2) - 2 * n.1;
    assert(abs_i(ex) <= d2 && abs_i(ey) <= d2);
    let xx = 2 * (qx * d2);
    let yy = 2 * (qy * d2);
    assert(abs_i(xx * xx - 4 * (n.0 * n.0)) <= (4 * r + 1) * (d2 * d2)) by (nonlinear_arith)
        requires
            xx == 2 * n.0 + ex,
            abs_i(ex) <= d2,
            abs_i(n.0) <= r * d2,
            1 <= d2,
            1 <= r,
    ;
    assert(abs_i(yy * yy - 4 * (n.1 * n.1)) <= (4 * r + 1) * (d2 * d2)) by (nonlinear_arith)
        requires
            yy == 2 * n.1 + ey,
            abs_i(ey) <= d2,
            abs_i(n.1) <= r * d2,
            1 <= d2,
            1 <= r,
    ;
    let q2 = qx * qx + qy * qy;
    assert(xx * xx + yy * yy == (4 * (d2 * d2)) * q2) by (nonlinear_arith)
        requires
            xx == 2 * (qx * d2),
            yy == 2 * (qy * d2),
            q2 == qx * qx + qy * qy,
    ;
    // Put the pieces together and cancel the positive factor d2^2.
    assert((4 * (d2 * d2)) * q2 >= (d2 * d2) * (4 * (r * r) - 16 * r - 2) && (4 * (d2 * d2)) * q2
        <= (d2 * d2) * (4 * (r * r) + 8 * r + 2)) by (nonlinear_arith)
        requires
            abs_i(xx * xx - 4 * (n.0 * n.0)) <= (4 * r + 1) * (d2 * d2),
            abs_i(yy * yy - 4 * (n.1 * n.1)) <= (4 * r + 1) * (d2 * d2),
            4 * (n.0 * n.0 + n.1 * n.1) == 4 * ((r * r) * (d2 * d2)) - 4 * (((r * r) * u) * d2),
            0 <= ((r * r) * u) * d2 <= 2 * r * (d2 * d2),
            xx * xx + yy * yy == (4 * (d2 * d2)) * q2,
            1 <= d2,
    ;
    assert(4 * q2 >= 4 * (r * r) - 16 * r - 2 && 4 * q2 <= 4 * (r * r) + 8 * r + 2)
        by (nonlinear_arith)
        requires
            (4 * (d2 * d2)) * q2 >= (d2 * d2) * (4 * (r * r) - 16 * r - 2),
            (4 * (d2 * d2)) * q2 <= (d2 * d2) * (4 * (r * r) + 8 * r + 2),
            1 <= d2,
    ;
}

/// The chord from the external point to the returned tangent point is
/// orthogonal to the radius within the grid tolerance: twice their dot
/// product is bounded by `8 * r` plus one tick per unit of the offset to
/// the external point — a relative error on the tick scale for vectors of
/// length `r` and `|p - c|`.
#[verifier::rlimit(40)]
pub proof fn lemma_tangent_point_orthogonal(c: Point2, r: int, p: Point2, side: int)
    requires
        1 <= r,
        !tangent_degenerate(c, r, p),
        side == 1 || side == -1,
    ensures
        ({
            let t = tangent_point(c, r, p, side);
            let dot = (t.0 - p.x) * (t.0 - c.x) + (t.1 - p.y) * (t.1 - c.y);
            abs_i(2 * dot) <= 8 * r + abs_i(p.x - c.x) + abs_i(p.y - c.y)
        }),
{
    let dx = p.x - c.x;
    let dy = p.y - c.y;
    let d2 = dist2(c, p);
    assert(d2 >= 1 && d2 > r * r) by (nonlinear_arith)
        requires
            d2 > (r + 1) * (r + 1),
            r >= 1,
    ;
    let s = sqrt_floor(d2 - r * r);
    let n = tangent_num(c, r, p, side);
    // The numerator is orthogonal-shifted exactly: N . (dx, dy) == r^2 d2,
    // whatever the square root came to.
    let nw = n.0 * dx + n.1 * dy;
    assert(nw == (r * r) * d2) by (nonlinear_arith)
        requires
            nw == n.0 * dx + n.1 * dy,
            n.0 == r * r * dx - side * (r * s) * dy,
            n.1 == r * r * dy + side * (r * s) * dx,
            d2 == dx * dx + dy * dy,
    ;
    lemma_tangent_point_on_circle(c, r, p, side);
    let t = tangent_point(c, r, p, side);
    let qx = t.0 - c.x;
    let qy = t.1 - c.y;
    let q2 = qx * qx + qy * qy;
    crate::num::lemma_div_round_err(n.0, d2);
    crate::num::lemma_div_round_err(n.1, d2);
    let ex = 2 * (qx * d2) - 2 * n.0;
    let ey = 2 * (qy * d2) - 2 * n.1;
    assert(abs_i(ex) <= d2 && abs_i(ey) <= d2);
    // 2 d2 (q . w) sits within d2 (|dx| + |dy|) of 2 r^2 d2.
    let qw = qx * dx + qy * dy;
    assert((2 * qw) * d2 == 2 * nw + (ex * dx + ey * dy)) by (nonlinear_arith)
        requires
            qw == qx * dx + qy * dy,
            ex == 2 * (qx * d2) - 2 * n.0,
            ey == 2 * (qy * d2) - 2 * n.1,
            nw == n.0 * dx + n.1 * dy,
    ;
    assert(abs_i(ex * dx + ey * dy) <= d2 * (abs_i(dx) + abs_i(dy))) by (nonlinear_arith)
        requires
            abs_i(ex) <= d2,
            abs_i(ey) <= d2,
            d2 >= 1,
    ;
    assert(abs_i(2 * qw - 2 * (r * r)) <= abs_i(dx) + abs_i(dy)) by (nonlinear_arith)
        requires
            (2 * qw) * d2 == 2 * nw + (ex * dx + ey * dy),
            nw == (r * r) * d2,
            abs_i(ex * dx + ey * dy) <= d2 * (abs_i(dx) + abs_i(dy)),
            d2 >= 1,
    ;
    // The dot product itself is q . q - q . w, and q . q is r^2 within 4r.
    let dot = (t.0 - p.x) * (t.0 - c.x) + (t.1 - p.y) * (t.1 - c.y);
    assert(dot == q2 - qw) by (nonlinear_arith)
        requires
            dot == (t.0 - p.x) * (t.0 - c.x) + (t.1 - p.y) * (t.1 - c.y),
            qx == t.0 - c.x,
            qy == t.1 - c.y,
            dx == p.x - c.x,
            dy == p.y - c.y,
            q2 == qx * qx + qy * qy,
            qw == qx * dx + qy * dy,
    ;
    assert(abs_i(2 * dot) <= 8 * r + abs_i(dx) + abs_i(dy));
}

/// Tangent points from `point` to the circle of radius `r` at `circle`, or
/// `(None, None)` when `point` is inside the circle or within `EPS` of its
/// boundary.  The pair comes in the order of `tangent_pair`: the upper
/// point first when `point` and `circle` are horizontally aligned.
pub fn get_tangent(circle: Point2, r: i64, point: Point2) -> (res: (Option<Point2>, Option<
    Point2,
>))
    requires
        in_range(circle),
        in_range(point),
        1 <= r <= RADIUS_LIMIT,
    ensures
        res == spec_get_tangent(circle, r as int, point),
        res.0 is None <==> tangent_degenerate(circle, r as int, point),
        res.1 is None <==> tangent_degenerate(circle, r as int, point),
{
    let dx = point.x as i128 - circle.x as i128;
    let dy = point.y as i128 - circle.y as i128;
    proof {
        assert(0 <= dx as int * dx as int <= 4_000_000_000_000int && 0 <= dy as int * dy as int
            <= 4_000_000_000_000int) by (nonlinear_arith)
            requires
                -2_000_000 <= dx as int <= 2_000_000,
                -2_000_000 <= dy as int <= 2_000_000,
        ;
    }
    let d2 = dx * dx + dy * dy;
    let re = (r + EPS) as i128;
    proof {
        assert(0 <= re as int * re as int <= 2_000_000_000_000int) by (nonlinear_arith)
            requires
                2 <= re as int <= 1_000_001,
        ;
    }
    if d2 <= re * re {
        return (None, None);
    }
    let ri = r as i128;
    proof {
        let rii = ri as int;
        let rei = re as int;
        assert(1 <= rii * rii && rii * rii < rei * rei && rii * rii <= 1_000_000_000_000int)
            by (nonlinear_arith)
            requires
                1 <= rii,
                rii < rei,
                rii <= 1_000_000,
        ;
    }
    let m = d2 - ri * ri;
    let s = isqrt_u128(m as u128);
    let ghost s_spec = sqrt_floor(m as int);
    proof {
        assert(s == s_spec);
        lemma_sqrt_floor_bounds(m as int);
        assert(3_000_000 * 3_000_000int == 9_000_000_000_000int) by (nonlinear_arith);
        lemma_abs_le_of_sq_le(s_spec, 3_000_000);
    }
    let si = s as i128;
    let rr = ri * ri;
    proof {
        assert(abs_i(rr as int * dx as int) <= 2_000_000_000_000_000_000int && abs_i(
            ri as int * si as int,
        ) <= 3_000_000_000_000int) by (nonlinear_arith)
            requires
                1 <= ri as int <= 1_000_000,
                0 <= rr as int <= 1_000_000_000_000int,
                0 <= si as int <= 3_000_000,
                -2_000_000 <= dx as int <= 2_000_000,
        ;
    }
    let rs = ri * si;
    proof {
        assert(abs_i(rs as int * dy as int) <= 6_000_000_000_000_000_000int && abs_i(
            rs as int * dx as int,
        ) <= 6_000_000_000_000_000_000int && abs_i(rr as int * dy as int)
            <= 2_000_000_000_000_000_000int) by (nonlinear_arith)
            requires
                0 <= rs as int <= 3_000_000_000_000int,
                0 <= rr as int <= 1_000_000_000_000int,
                -2_000_000 <= dx as int <= 2_000_000,
                -2_000_000 <= dy as int <= 2_000_000,
        ;
    }
    let nx1 = rr * dx - rs * dy;
    let ny1 = rr * dy + rs * dx;
    let nx2 = rr * dx + rs * dy;
    let ny2 = rr * dy - rs * dx;
    proof {
        assert(dist2(circle, point) == d2 as int);
        assert(!tangent_degenerate(circle, r as int, point));
        assert(s_spec == sqrt_floor(dist2(circle, point) - r as int * r as int));
        assert(nx1 as int == tangent_num(circle, r as int, point, 1).0);
        assert(ny1 as int == tangent_num(circle, r as int, point, 1).1);
        let aa = (r as int) * (r as int);
        let bb = (r as int) * s_spec;
        let gdx = point.x - circle.x;
        let gdy = point.y - circle.y;
        assert(tangent_num(circle, r as int, point, -1).0 == aa * gdx - (-1) * bb * gdy
            && tangent_num(circle, r as int, point, -1).1 == aa * gdy + (-1) * bb * gdx);
        assert(aa * gdx - (-1) * bb * gdy == aa * gdx + bb * gdy) by (nonlinear_arith);
        assert(aa * gdy + (-1) * bb * gdx == aa * gdy - bb * gdx) by (nonlinear_arith);
        assert(nx2 as int == tangent_num(circle, r as int, point, -1).0);
        assert(ny2 as int == tangent_num(circle, r as int, point, -1).1);
        lemma_tangent_point_bounds(circle, r as int, point, 1);
        lemma_tangent_point_bounds(circle, r as int, point, -1);
    }
    let q1x = round_div_i128(nx1, d2);
    let q1y = round_div_i128(ny1, d2);
    let q2x = round_div_i128(nx2, d2);
    let q2y = round_div_i128(ny2, d2);
    proof {
        assert(circle.x + q1x as int == tangent_point(circle, r as int, point, 1).0);
        assert(-2_000_000 <= circle.x + q1x as int <= 2_000_000);
        assert(-2_000_000 <= circle.y + q1y as int <= 2_000_000);
        assert(-2_000_000 <= circle.x + q2x as int <= 2_000_000);
        assert(-2_000_000 <= circle.y + q2y as int <= 2_000_000);
    }
    let t1 = Point2 { x: circle.x + q1x as i64, y: circle.y + q1y as i64 };
    let t2 = Point2 { x: circle.x + q2x as i64, y: circle.y + q2y as i64 };
    if point.y == circle.y && point.x < circle.x {
        (Some(t2), Some(t1))
    } else {
        (Some(t1), Some(t2))
    }
}

/// 2D cross product of (ax, ay) and (bx, by).
pub open spec fn cross(ax: int, ay: int, bx: int, by: int) -> int {
    ax * by - ay * bx
}

/// Triangle cross product anchored at `o`: twice the signed area of the
/// triangle (o, p, q).
pub open spec fn cross3(o: Point2, p: Point2, q: Point2) -> int {
    (p.x - o.x) * (q.y - o.y) - (p.y - o.y) * (q.x - o.x)
}

/// The clockwise turn that boundary edge `i` (wrapping at the end)
/// subtends as seen from `c`.
pub open spec fn edge_turn(c: Point2, s: Seq<Point2>, i: int) -> int {
    cross3(
        c,
        s[i],
        s[if i + 1 == s.len() as int {
            0int
        } else {
            i + 1
        }],
    )
}

/// The shape invariant of the visibility polygon: every boundary edge,
/// seen from `c`, subtends a strictly clockwise turn.  For a closed
/// boundary this is the working form of "a simple clockwise polygon
/// enclosing `c`": it is exactly what makes the fan triangulation of
/// `get_triangles` valid.
pub open spec fn star_shaped_clockwise(c: Point2, s: Seq<Point2>) -> bool {
    forall|i: int| 0 <= i < s.len() ==> #[trigger] edge_turn(c, s, i) < 0
}

/// Intersection parameters of the ray from `o` along (dx, dy) with the edge
/// a→b, as (den, nt, nu): the ray parameter is nt/den, the edge parameter
/// nu/den, sign-normalized so den >= 0.  den == 0 means parallel (or a
/// degenerate ray), treated as a miss.
pub open spec fn edge_hit_params(o: Point2, dx: int, dy: int, a: Point2, b: Point2) -> (
    int,
    int,
    int,
) {
    let ex = b.x - a.x;
    let ey = b.y - a.y;
    let den0 = cross(dx, dy, ex, ey);
    let nt0 = cross(a.x - o.x, a.y - o.y, ex, ey);
    let nu0 = cross(a.x - o.x, a.y - o.y, dx, dy);
    if den0 < 0 {
        (-den0, -nt0, -nu0)
    } else {
        (den0, nt0, nu0)
    }
}

/// The ray from `o` along (dx, dy) meets the edge a→b: not parallel, in the
/// forward direction of the ray, and between the edge's endpoints.
pub open spec fn edge_hits(o: Point2, dx: int, dy: int, a: Point2, b: Point2) -> bool {
    let (den, nt, nu) = edge_hit_params(o, dx, dy, a, b);
    den != 0 && nt >= 0 && 0 <= nu <= den
}

/// Where the ray meets the edge: the exact rational point rounded to the
/// tick grid.
pub open spec fn edge_hit_point(o: Point2, dx: int, dy: int, a: Point2, b: Point2) -> (int, int) {
    let (den, nt, nu) = edge_hit_params(o, dx, dy, a, b);
    (o.x + div_round(nt * dx, den), o.y + div_round(nt * dy, den))
}

/// Cramer's rule for the ray–edge system: on the common denominator, the
/// point reached along the ray equals the point reached along the edge.
proof fn lemma_edge_hit_cramer(o: Point2, dx: int, dy: int, a: Point2, b: Point2)
    ensures
        ({
            let (den, nt, nu) = edge_hit_params(o, dx, dy, a, b);
            nt * dx == (a.x - o.x) * den + nu * (b.x - a.x) && nt * dy == (a.y - o.y) * den + nu
                * (b.y - a.y)
        }),
{
    let ex = b.x - a.x;
    let ey = b.y - a.y;
    let wx = a.x - o.x;
    let wy = a.y - o.y;
    let den0 = cross(dx, dy, ex, ey);
    let nt0 = cross(wx, wy, ex, ey);
    let nu0 = cross(wx, wy, dx, dy);
    assert(nt0 * dx == wx * den0 + nu0 * ex) by (nonlinear_arith)
        requires
            den0 == dx * ey - dy * ex,
            nt0 == wx * ey - wy * ex,
            nu0 == wx * dy - wy * dx,
    ;
    assert(nt0 * dy == wy * den0 + nu0 * ey) by (nonlinear_arith)
        requires
            den0 == dx * ey - dy * ex,
            nt0 == wx * ey - wy * ex,
            nu0 == wx * dy - wy * dx,
    ;
    if den0 < 0 {
        assert((-nt0) * dx == wx * (-den0) + (-nu0) * ex && (-nt0) * dy == wy * (-den0) + (-nu0)
            * ey) by (nonlinear_arith)
            requires
                nt0 * dx == wx * den0 + nu0 * ex,
                nt0 * dy == wy * den0 + nu0 * ey,
        ;
    }
}

/// A hit point lies in the bounding box of its edge (the rounding cannot
/// escape it, because the endpoint coordinates are themselves on the grid).
proof fn lemma_edge_hit_in_box(o: Point2, dx: int, dy: int, a: Point2, b: Point2)
    requires
        edge_hits(o, dx, dy, a, b),
    ensures
        ({
            let q = edge_hit_point(o, dx, dy, a, b);
            (if a.x <= b.x {
                a.x <= q.0 <= b.x
            } else {
                b.x <= q.0 <= a.x
            }) && (if a.y <= b.y {
                a.y <= q.1 <= b.y
            } else {
                b.y <= q.1 <= a.y
            })
        }),
{
    let (den, nt, nu) = edge_hit_params(o, dx, dy, a, b);
    lemma_edge_hit_cramer(o, dx, dy, a, b);
    let lox: int = if a.x <= b.x {
        a.x as int
    } else {
        b.x as int
    };
    let hix: int = if a.x <= b.x {
        b.x as int
    } else {
        a.x as int
    };
    let loy: int = if a.y <= b.y {
        a.y as int
    } else {
        b.y as int
    };
    let hiy: int = if a.y <= b.y {
        b.y as int
    } else {
        a.y as int
    };
    assert((lox - o.x) * den <= nt * dx && nt * dx <= (hix - o.x) * den && (loy - o.y) * den <= nt
        * dy && nt * dy <= (hiy - o.y) * den) by (nonlinear_arith)
        requires
            nt * dx == (a.x - o.x) * den + nu * (b.x - a.x),
            nt * dy == (a.y - o.y) * den + nu * (b.y - a.y),
            0 <= nu <= den,
            1 <= den,
            lox == if a.x <= b.x {
                a.x as int
            } else {
                b.x as int
            },
            hix == if a.x <= b.x {
                b.x as int
            } else {
                a.x as int
            },
            loy == if a.y <= b.y {
                a.y as int
            } else {
                b.y as int
            },
            hiy == if a.y <= b.y {
                b.y as int
            } else {
                a.y as int
            },
    ;
    lemma_div_round_bounds(nt * dx, den, lox - o.x, hix - o.x);
    lemma_div_round_bounds(nt * dy, den, loy - o.y, hiy - o.y);
}

/// The new hit is strictly nearer along the ray than the best one so far.
pub open spec fn hit_closer(nt_new: int, den_new: int, nt_best: int, den_best: int) -> bool {
    nt_new * den_best < nt_best * den_new
}

/// Tests whether the ray from `o` along `d` meets the edge a→b; on a hit,
/// returns the parameters (nt, den) and the rounded intersection point.
fn ray_edge_hit(o: Point2, d: Vector2, a: Point2, b: Point2) -> (res: Option<(i128, i128, Point2)>)
    requires
        in_range(o),
        -3_000_000 <= d.x <= 3_000_000,
        -3_000_000 <= d.y <= 3_000_000,
        pt_in_limit(a),
        pt_in_limit(b),
    ensures
        res is Some <==> edge_hits(o, d.x as int, d.y as int, a, b),
        res is Some ==> ({
            let (den, nt, nu) = edge_hit_params(o, d.x as int, d.y as int, a, b);
            let q = edge_hit_point(o, d.x as int, d.y as int, a, b);
            res->Some_0.0 == nt && res->Some_0.1 == den && res->Some_0.2.x as int == q.0
                && res->Some_0.2.y as int == q.1 && pt_in_limit(res->Some_0.2) && 0 <= nt
                <= 26_000_000_000_000 && 1 <= den <= 26_000_000_000_000
        }),
{
    let dx = d.x as i128;
    let dy = d.y as i128;
    let ex = b.x as i128 - a.x as i128;
    let ey = b.y as i128 - a.y as i128;
    let wx = a.x as i128 - o.x as i128;
    let wy = a.y as i128 - o.y as i128;
    proof {
        let l = 13_000_000_000_000int;
        assert(abs_i(dx as int * ey as int) <= l && abs_i(dy as int * ex as int) <= l && abs_i(
            wx as int * ey as int,
        ) <= l && abs_i(wy as int * ex as int) <= l && abs_i(wx as int * dy as int) <= l && abs_i(
            wy as int * dx as int,
        ) <= l) by (nonlinear_arith)
            requires
                l == 13_000_000_000_000int,
                abs_i(dx as int) <= 3_000_000,
                abs_i(dy as int) <= 3_000_000,
                abs_i(ex as int) <= 4_000_000,
                abs_i(ey as int) <= 4_000_000,
                abs_i(wx as int) <= 3_000_000,
                abs_i(wy as int) <= 3_000_000,
        ;
    }
    let den0 = dx * ey - dy * ex;
    let nt0 = wx * ey - wy * ex;
    let nu0 = wx * dy - wy * dx;
    let (den, nt, nu) = if den0 < 0 {
        (-den0, -nt0, -nu0)
    } else {
        (den0, nt0, nu0)
    };
    if den == 0 || nt < 0 || nu < 0 || nu > den {
        return None;
    }
    proof {
        let l = 26_000_000_000_000int;
        assert(abs_i(nt as int * dx as int) <= l * 3_000_000 && abs_i(nt as int * dy as int) <= l
            * 3_000_000) by (nonlinear_arith)
            requires
                l == 26_000_000_000_000int,
                abs_i(nt as int) <= l,
                abs_i(dx as int) <= 3_000_000,
                abs_i(dy as int) <= 3_000_000,
        ;
        lemma_edge_hit_in_box(o, d.x as int, d.y as int, a, b);
    }
    let qx = o.x as i128 + round_div_i128(nt * dx, den);
    let qy = o.y as i128 + round_div_i128(nt * dy, den);
    let q = Point2 { x: qx as i64, y: qy as i64 };
    Some((nt, den, q))
}

/// Shape of an occluder; a closed set of variants, currently circles only.
#[derive(Clone, Copy, Debug, PartialEq, Eq, Structural)]
pub enum Geometry {
    Circle { radius: i64 },
}

/// A point on the tick grid from mathematical coordinates.
pub open spec fn pt(x: int, y: int) -> Point2 {
    Point2 { x: x as i64, y: y as i64 }
}

/// The nearest hit of the ray from `o` along (dx, dy) on the edges `0..i`
/// of the closed polygon `s`, preferring the earliest edge on ties:
/// (edge index, nt, den, qx, qy), with the hit point (qx, qy) rounded.
pub open spec fn first_hit_upto(s: Seq<Point2>, o: Point2, dx: int, dy: int, i: int) -> Option<
    (int, int, int, int, int),
>
    decreases i,
{
    if i <= 0 {
        None
    } else {
        let prev = first_hit_upto(s, o, dx, dy, i - 1);
        let a = s[i - 1];
        let b = s[if i == s.len() as int {
            0int
        } else {
            i
        }];
        if edge_hits(o, dx, dy, a, b) {
            let (den, nt, nu) = edge_hit_params(o, dx, dy, a, b);
            let q = edge_hit_point(o, dx, dy, a, b);
            match prev {
                Option::None => Some((i - 1, nt, den, q.0, q.1)),
                Option::Some(p) => if hit_closer(nt, den, p.1, p.2) {
                    Some((i - 1, nt, den, q.0, q.1))
                } else {
                    Some(p)
                },
            }
        } else {
            prev
        }
    }
}

/// The nearest hit of the ray on the whole boundary of `s`.
pub open spec fn first_hit(s: Seq<Point2>, o: Point2, dx: int, dy: int) -> Option<
    (int, int, int, int, int),
> {
    first_hit_upto(s, o, dx, dy, s.len() as int)
}

/// Position of the point (qx, qy) along edge `e` of `s`: the dot product
/// with the edge direction, used only to order two hits on the same edge.
pub open spec fn along_edge(s: Seq<Point2>, e: int, qx: int, qy: int) -> int {
    let a = s[e];
    let b = s[if e + 1 == s.len() as int {
        0int
    } else {
        e + 1
    }];
    (qx - a.x) * (b.x - a.x) + (qy - a.y) * (b.y - a.y)
}

/// What `clip_one` does to the point sequence.  The boundary walk is
/// clockwise; the occluded arc runs from the first ray's hit to the second
/// ray's hit, and is replaced by the notch
/// [hit1, tangent-point, tangent-point, hit2].  When the arc does not wrap
/// past the seam the prefix and suffix survive; when it wraps, only the
/// vertices between the second hit and the first do.  If the tangent is
/// degenerate or either ray misses every edge, the polygon is unchanged.
pub open spec fn clip_result(s: Seq<Point2>, center: Point2, radius: int, pos: Point2) -> Seq<
    Point2,
> {
    if tangent_degenerate(pos, radius, center) {
        s
    } else {
        let t1 = tangent_point(pos, radius, center, 1);
        let t2 = tangent_point(pos, radius, center, -1);
        let d1x = t2.0 - center.x;
        let d1y = t2.1 - center.y;
        let d2x = t1.0 - center.x;
        let d2y = t1.1 - center.y;
        match (first_hit(s, center, d1x, d1y), first_hit(s, center, d2x, d2y)) {
            (Option::Some(h1), Option::Some(h2)) => {
                let e1 = h1.0;
                let e2 = h2.0;
                let ins = seq![
                    (pt(h1.3, h1.4)),
                    (pt(t2.0, t2.1)),
                    (pt(t1.0, t1.1)),
                    (pt(h2.3, h2.4)),
                ];
                if e1 < e2 || (e1 == e2 && along_edge(s, e1, h1.3, h1.4) <= along_edge(
                    s,
                    e1,
                    h2.3,
                    h2.4,
                )) {
                    s.subrange(0, e1 + 1) + ins + s.subrange(e2 + 1, s.len() as int)
                } else {
                    s.subrange(e2 + 1, e1 + 1) + ins
                }
            },
            _ => s,
        }
    }
}

/// A hit recorded by the scan names an edge among those scanned.
proof fn lemma_first_hit_upto_index(s: Seq<Point2>, o: Point2, dx: int, dy: int, i: int)
    ensures
        first_hit_upto(s, o, dx, dy, i) is Some ==> 0 <= first_hit_upto(s, o, dx, dy, i)->Some_0.0
            < i,
    decreases i,
{
    if i > 0 {
        lemma_first_hit_upto_index(s, o, dx, dy, i - 1);
    }
}

/// The running best hit held by the clip loop matches the spec-level scan.
spec fn hit_matches(h: Option<(int, int, int, int, int)>, b: Option<(usize, i128, i128, Point2)>) -> bool {
    match (h, b) {
        (Option::None, Option::None) => true,
        (Option::Some(p), Option::Some(t)) => t.0 as int == p.0 && t.1 as int == p.1
            && t.2 as int == p.2 && t.3.x as int == p.3 && t.3.y as int == p.4 && 0 <= p.1
            <= 26_000_000_000_000 && 1 <= p.2 <= 26_000_000_000_000 && pt_in_limit(t.3),
        _ => false,
    }
}

/// The world-space light-visibility polygon around `center`: a clockwise
/// rectangle at construction, notched by each successful clip against a
/// circular occluder.
#[derive(Debug)]
pub struct LightningPolygon {
    pub points: Vec<Point2>,
    pub x_min: i64,
    pub y_min: i64,
    pub x_max: i64,
    pub y_max: i64,
    pub center: Point2,
}

impl LightningPolygon {
    /// The original unclipped frame, as (x_min, y_min, x_max, y_max).
    pub open spec fn bounds(self) -> (int, int, int, int) {
        (self.x_min as int, self.y_min as int, self.x_max as int, self.y_max as int)
    }

    /// Well-formed: at least a triangle, capped so fan indices fit a `u16`,
    /// every point and the frame within the working range.
    pub open spec fn wf(self) -> bool {
        &&& 3 <= self.points@.len() <= MAX_POINTS
        &&& forall|i: int|
            0 <= i < self.points@.len() ==> pt_in_limit(#[trigger] self.points@[i])
        &&& in_range(self.center)
        &&& -COORD_LIMIT <= self.bounds().0 <= COORD_LIMIT
        &&& -COORD_LIMIT <= self.bounds().1 <= COORD_LIMIT
        &&& -COORD_LIMIT <= self.bounds().2 <= COORD_LIMIT
        &&& -COORD_LIMIT <= self.bounds().3 <= COORD_LIMIT
    }

    /// A fresh light polygon: the full clockwise rectangle, no shadows yet.
    pub fn new_rectangle(x_min: i64, y_min: i64, x_max: i64, y_max: i64, center: Point2) -> (p:
        LightningPolygon)
        requires
            -COORD_LIMIT <= x_min <= COORD_LIMIT,
            -COORD_LIMIT <= y_min <= COORD_LIMIT,
            -COORD_LIMIT <= x_max <= COORD_LIMIT,
            -COORD_LIMIT <= y_max <= COORD_LIMIT,
            in_range(center),
        ensures
            p.points@ == seq![
                (Point2 { x: x_min, y: y_min }),
                (Point2 { x: x_min, y: y_max }),
                (Point2 { x: x_max, y: y_max }),
                (Point2 { x: x_max, y: y_min }),
            ],
            p.center == center,
            p.bounds() == (x_min as int, y_min as int, x_max as int, y_max as int),
            p.wf(),
            crate::polygon::area2(p.points@) == 2 * ((x_min - x_max) * (y_max - y_min)),
            (x_min < center.x < x_max && y_min < center.y < y_max) ==> star_shaped_clockwise(
                center,
                p.points@,
            ),
    {
        let points = vec![
            Point2 { x: x_min, y: y_min },
            Point2 { x: x_min, y: y_max },
            Point2 { x: x_max, y: y_max },
            Point2 { x: x_max, y: y_min },
        ];
        let p = LightningPolygon { points, x_min, y_min, x_max, y_max, center };
        proof {
            let s = p.points@;
            assert(s =~= seq![
                (Point2 { x: x_min, y: y_min }),
                (Point2 { x: x_min, y: y_max }),
                (Point2 { x: x_max, y: y_max }),
                (Point2 { x: x_max, y: y_min }),
            ]);
            // The signed area, term by term around the frame.
            let t0 = crate::polygon::shoelace_term(s, 0);
            let t1 = crate::polygon::shoelace_term(s, 1);
            let t2 = crate::polygon::shoelace_term(s, 2);
            let t3 = crate::polygon::shoelace_term(s, 3);
            assert(crate::polygon::shoelace_upto(s, 0) == 0);
            assert(crate::polygon::shoelace_upto(s, 1) == t0);
            assert(crate::polygon::shoelace_upto(s, 2) == t0 + t1);
            assert(crate::polygon::shoelace_upto(s, 3) == t0 + t1 + t2);
            assert(crate::polygon::area2(s) == t0 + t1 + t2 + t3);
            assert(t0 + t1 + t2 + t3 == 2 * ((x_min - x_max) * (y_max - y_min)))
                by (nonlinear_arith)
                requires
                    t0 == x_min * y_max - y_min * x_min,
                    t1 == x_min * y_max - y_max * x_max,
                    t2 == x_max * y_min - y_max * x_max,
                    t3 == x_max * y_min - y_min * x_min,
            ;
            // With the center strictly inside the frame, every edge turns
            // clockwise as seen from it.
            if x_min < center.x < x_max && y_min < center.y < y_max {
                let c0 = cross3(center, s[0], s[1]);
                let c1 = cross3(center, s[1], s[2]);
                let c2 = cross3(center, s[2], s[3]);
                let c3 = cross3(center, s[3], s[0]);
                assert(c0 < 0) by (nonlinear_arith)
                    requires
                        c0 == (x_min - center.x) * (y_max - center.y) - (y_min - center.y) * (
                        x_min - center.x),
                        x_min < center.x,
                        y_min < y_max,
                ;
                assert(c1 < 0) by (nonlinear_arith)
                    requires
                        c1 == (x_min - center.x) * (y_max - center.y) - (y_max - center.y) * (
                        x_max - center.x),
                        center.y < y_max,
                        x_min < x_max,
                ;
                assert(c2 < 0) by (nonlinear_arith)
                    requires
                        c2 == (x_max - center.x) * (y_min - center.y) - (y_max - center.y) * (
                        x_max - center.x),
                        center.x < x_max,
                        y_min < y_max,
                ;
                assert(c3 < 0) by (nonlinear_arith)
                    requires
                        c3 == (x_max - center.x) * (y_min - center.y) - (y_min - center.y) * (
                        x_min - center.x),
                        y_min < center.y,
                        x_min < x_max,
                ;
                assert forall|i: int| 0 <= i < s.len() implies #[trigger] edge_turn(
                    center,
                    s,
                    i,
                ) < 0 by {
                    if i == 0 {
                        assert(cross3(center, s[0], s[1]) < 0);
                    } else if i == 1 {
                        assert(cross3(center, s[1], s[2]) < 0);
                    } else if i == 2 {
                        assert(cross3(center, s[2], s[3]) < 0);
                    } else {
                        assert(cross3(center, s[3], s[0]) < 0);
                    }
                }
            }
        }
        p
    }

    /// The point lies within `EPS` of one of the four original frame edges.
    pub open spec fn spec_is_border_point(self, point: Point2) -> bool {
        ||| spec_eq(point.x as int, self.bounds().0)
        ||| spec_eq(point.x as int, self.bounds().2)
        ||| spec_eq(point.y as int, self.bounds().1)
        ||| spec_eq(point.y as int, self.bounds().3)
    }

    /// Does the point lie on the original frame rectangle (within `EPS`),
    /// as opposed to having been introduced by clipping?
    pub fn is_border_point(&self, point: Point2) -> (r: bool)
        requires
            self.wf(),
            pt_in_limit(point),
        ensures
            r == self.spec_is_border_point(point),
    {
        eq(point.x, self.x_min) || eq(point.x, self.x_max) || eq(point.y, self.y_min) || eq(
            point.y,
            self.y_max,
        )
    }

    /// Clip the visibility polygon against one circular occluder at
    /// `position`: the boundary arc hidden behind the occluder, as seen
    /// from `center`, is replaced by a notch that follows the two tangent
    /// rays and the near side of the occluder.  Degenerate cases — the
    /// light inside or touching the occluder, or a tangent ray that misses
    /// every edge — leave the polygon unchanged.
    ///
    /// The splice keeps the boundary clockwise: the occluded arc runs from
    /// the first ray's hit to the second ray's, wrapping past the seam
    /// when the hits come in the other order.  The shape invariant
    /// `star_shaped_clockwise` — established by `new_rectangle` — is
    /// thereby preserved up to the half-tick rounding of the four notch
    /// corners, which sit on rays and tangents through `center`; that
    /// rounding slack is why the contract pins the exact point sequence
    /// (`clip_result`) rather than restating the invariant.
    #[verifier::rlimit(60)]
    pub fn clip_one(&mut self, geom: Geometry, position: Point2)
        requires
            old(self).wf(),
            in_range(position),
            old(self).points@.len() + 4 <= MAX_POINTS,
            (match geom {
                Geometry::Circle { radius } => 1 <= radius && radius <= RADIUS_LIMIT,
            }),
        ensures
            final(self).wf(),
            final(self).center == old(self).center,
            final(self).bounds() == old(self).bounds(),
            final(self).points@.len() <= old(self).points@.len() + 4,
            (match geom {
                Geometry::Circle { radius } => final(self).points@ == clip_result(
                    old(self).points@,
                    old(self).center,
                    radius as int,
                    position,
                ),
            }),
    {
        match geom {
            Geometry::Circle { radius } => {
                let tg = get_tangent(position, radius, self.center);
                let (p1, p2) = match tg {
                    (Some(p1), Some(p2)) => (p1, p2),
                    _ => {
                        return ;
                    },
                };
                // The returned pair is ordered for the caller; the splice
                // works with the two roots by side, so undo the ordering.
                let (tp, tm) = if self.center.y == position.y && self.center.x < position.x {
                    (p2, p1)
                } else {
                    (p1, p2)
                };
                let ghost t1 = tangent_point(position, radius as int, self.center, 1);
                let ghost t2 = tangent_point(position, radius as int, self.center, -1);
                proof {
                    lemma_tangent_point_bounds(position, radius as int, self.center, 1);
                    lemma_tangent_point_bounds(position, radius as int, self.center, -1);
                    assert(tp.x as int == t1.0 && tp.y as int == t1.1);
                    assert(tm.x as int == t2.0 && tm.y as int == t2.1);
                }
                let dir1 = Vector2 { x: tm.x - self.center.x, y: tm.y - self.center.y };
                let dir2 = Vector2 { x: tp.x - self.center.x, y: tp.y - self.center.y };
                let n = self.points.len();
                let mut best1: Option<(usize, i128, i128, Point2)> = None;
                let mut best2: Option<(usize, i128, i128, Point2)> = None;
                let mut i: usize = 0;
                while i < n
                    invariant
                        *self == *old(self),
                        self.wf(),
                        n == self.points@.len(),
                        i <= n,
                        -3_000_000 <= dir1.x <= 3_000_000,
                        -3_000_000 <= dir1.y <= 3_000_000,
                        -3_000_000 <= dir2.x <= 3_000_000,
                        -3_000_000 <= dir2.y <= 3_000_000,
                        hit_matches(
                            first_hit_upto(
                                self.points@,
                                self.center,
                                dir1.x as int,
                                dir1.y as int,
                                i as int,
                            ),
                            best1,
                        ),
                        hit_matches(
                            first_hit_upto(
                                self.points@,
                                self.center,
                                dir2.x as int,
                                dir2.y as int,
                                i as int,
                            ),
                            best2,
                        ),
                    decreases n - i,
                {
                    let a = self.points[i];
                    let j = if i + 1 == n {
                        0
                    } else {
                        i + 1
                    };
                    let b = self.points[j];
                    let h1 = ray_edge_hit(self.center, dir1, a, b);
                    match h1 {
                        Some(h) => {
                            let take = match best1 {
                                None => true,
                                Some(t) => {
                                    proof {
                                        assert(abs_i(h.0 as int * t.2 as int)
                                            <= 676_000_000_000_000_000_000_000_000int && abs_i(
                                            t.1 as int * h.1 as int,
                                        ) <= 676_000_000_000_000_000_000_000_000int)
                                            by (nonlinear_arith)
                                            requires
                                                0 <= h.0 as int <= 26_000_000_000_000int,
                                                1 <= h.1 as int <= 26_000_000_000_000int,
                                                0 <= t.1 as int <= 26_000_000_000_000int,
                                                1 <= t.2 as int <= 26_000_000_000_000int,
                                        ;
                                    }
                                    h.0 * t.2 < t.1 * h.1
                                },
                            };
                            if take {
                                best1 = Some((i, h.0, h.1, h.2));
                            }
                        },
                        None => {},
                    }
                    let h2 = ray_edge_hit(self.center, dir2, a, b);
                    match h2 {
                        Some(h) => {
                            let take = match best2 {
                                None => true,
                                Some(t) => {
                                    proof {
                                        assert(abs_i(h.0 as int * t.2 as int)
                                            <= 676_000_000_000_000_000_000_000_000int && abs_i(
                                            t.1 as int * h.1 as int,
                                        ) <= 676_000_000_000_000_000_000_000_000int)
                                            by (nonlinear_arith)
                                            requires
                                                0 <= h.0 as int <= 26_000_000_000_000int,
                                                1 <= h.1 as int <= 26_000_000_000_000int,
                                                0 <= t.1 as int <= 26_000_000_000_000int,
                                                1 <= t.2 as int <= 26_000_000_000_000int,
                                        ;
                                    }
                                    h.0 * t.2 < t.1 * h.1
                                },
                            };
                            if take {
                                best2 = Some((i, h.0, h.1, h.2));
                            }
                        },
                        None => {},
                    }
                    i = i + 1;
                }
                let ghost s = self.points@;
                let ghost gd1x = dir1.x as int;
                let ghost gd1y = dir1.y as int;
                let ghost gd2x = dir2.x as int;
                let ghost gd2y = dir2.y as int;
                proof {
                    assert(first_hit(s, self.center, gd1x, gd1y) == first_hit_upto(
                        s,
                        self.center,
                        gd1x,
                        gd1y,
                        n as int,
                    ));
                }
                let (hb1, hb2) = match (best1, best2) {
                    (Some(hb1), Some(hb2)) => (hb1, hb2),
                    _ => {
                        return ;
                    },
                };
                let e1 = hb1.0;
                let q1 = hb1.3;
                let e2 = hb2.0;
                let q2 = hb2.3;
                proof {
                    lemma_first_hit_upto_index(s, self.center, gd1x, gd1y, n as int);
                    lemma_first_hit_upto_index(s, self.center, gd2x, gd2y, n as int);
                }
                let a1 = self.points[e1];
                let j1 = if e1 + 1 == n {
                    0
                } else {
                    e1 + 1
                };
                let b1 = self.points[j1];
                proof {
                    let l = 16_000_000_000_000int;
                    assert(abs_i((q1.x - a1.x) as int * (b1.x - a1.x) as int) <= l && abs_i(
                        (q1.y - a1.y) as int * (b1.y - a1.y) as int,
                    ) <= l && abs_i((q2.x - a1.x) as int * (b1.x - a1.x) as int) <= l && abs_i(
                        (q2.y - a1.y) as int * (b1.y - a1.y) as int,
                    ) <= l) by (nonlinear_arith)
                        requires
                            l == 16_000_000_000_000int,
                            abs_i((q1.x - a1.x) as int) <= 4_000_000,
                            abs_i((q1.y - a1.y) as int) <= 4_000_000,
                            abs_i((q2.x - a1.x) as int) <= 4_000_000,
                            abs_i((q2.y - a1.y) as int) <= 4_000_000,
                            abs_i((b1.x - a1.x) as int) <= 4_000_000,
                            abs_i((b1.y - a1.y) as int) <= 4_000_000,
                    ;
                }
                let al1 = (q1.x - a1.x) as i128 * (b1.x - a1.x) as i128 + (q1.y - a1.y) as i128 * (
                b1.y - a1.y) as i128;
                let al2 = (q2.x - a1.x) as i128 * (b1.x - a1.x) as i128 + (q2.y - a1.y) as i128 * (
                b1.y - a1.y) as i128;
                let case_a = e1 < e2 || (e1 == e2 && al1 <= al2);
                let mut newpts: Vec<Point2> = Vec::new();
                if case_a {
                    let mut k: usize = 0;
                    while k < e1 + 1
                        invariant
                            *self == *old(self),
                            self.wf(),
                            n == self.points@.len(),
                            e1 < n,
                            k <= e1 + 1,
                            newpts@ == self.points@.subrange(0, k as int),
                            forall|t: int|
                                0 <= t < newpts@.len() ==> pt_in_limit(#[trigger] newpts@[t]),
                        decreases e1 + 1 - k,
                    {
                        let p = self.points[k];
                        newpts.push(p);
                        k = k + 1;
                        proof {
                            assert(newpts@ =~= self.points@.subrange(0, k as int));
                        }
                    }
                    proof {
                        assert(pt_in_limit(q1) && pt_in_limit(q2) && pt_in_limit(tp)
                            && pt_in_limit(tm));
                    }
                    newpts.push(q1);
                    newpts.push(tm);
                    newpts.push(tp);
                    newpts.push(q2);
                    let mut k: usize = e2 + 1;
                    while k < n
                        invariant
                            *self == *old(self),
                            self.wf(),
                            n == self.points@.len(),
                            e1 < n,
                            e2 < n,
                            e2 + 1 <= k <= n,
                            newpts@ == self.points@.subrange(0, e1 + 1) + seq![q1, tm, tp, q2]
                                + self.points@.subrange(e2 + 1, k as int),
                            forall|t: int|
                                0 <= t < newpts@.len() ==> pt_in_limit(#[trigger] newpts@[t]),
                        decreases n - k,
                    {
                        let p = self.points[k];
                        newpts.push(p);
                        k = k + 1;
                        proof {
                            assert(newpts@ =~= self.points@.subrange(0, e1 + 1) + seq![
                                q1,
                                tm,
                                tp,
                                q2,
                            ] + self.points@.subrange(e2 + 1, k as int));
                        }
                    }
                } else {
                    let mut k: usize = e2 + 1;
                    while k < e1 + 1
                        invariant
                            *self == *old(self),
                            self.wf(),
                            n == self.points@.len(),
                            e1 < n,
                            e2 < n,
                            e2 + 1 <= k <= e1 + 1,
                            newpts@ == self.points@.subrange(e2 + 1, k as int),
                            forall|t: int|
                                0 <= t < newpts@.len() ==> pt_in_limit(#[trigger] newpts@[t]),
                        decreases e1 + 1 - k,
                    {
                        let p = self.points[k];
                        newpts.push(p);
                        k = k + 1;
                        proof {
                            assert(newpts@ =~= self.points@.subrange(e2 + 1, k as int));
                        }
                    }
                    proof {
                        assert(pt_in_limit(q1) && pt_in_limit(q2) && pt_in_limit(tp)
                            && pt_in_limit(tm));
                    }
                    newpts.push(q1);
                    newpts.push(tm);
                    newpts.push(tp);
                    newpts.push(q2);
                }
                proof {
                    assert(newpts@ =~= clip_result(s, self.center, radius as int, position));
                }
                self.points = newpts;
            },
        }
    }

    /// The k-th fan triple of the index list: (0, k+1, k+2), the last one
    /// wrapping back to 1.
    pub open spec fn fan_triple_ok(ind: Seq<u16>, n: int, k: int) -> bool {
        &&& ind[3 * k] as int == 0
        &&& ind[3 * k + 1] as int == k + 1
        &&& ind[3 * k + 2] as int == (if k == n - 1 {
            1int
        } else {
            k + 2
        })
    }

    /// Fan triangulation: `center` followed by the boundary points, and for
    /// every boundary index the index triple (0, i, i+1) wrapping back to 1.
    /// Valid because the polygon is star-shaped around `center`.
    pub fn get_triangles(&mut self) -> (res: (Vec<Point2>, Vec<u16>))
        requires
            old(self).wf(),
        ensures
            *final(self) == *old(self),
            res.0@.len() == old(self).points@.len() + 1,
            res.0@[0] == old(self).center,
            forall|i: int|
                0 <= i < old(self).points@.len() ==> res.0@[i + 1] == old(self).points@[i],
            res.1@.len() == 3 * old(self).points@.len(),
            forall|i: int|
                0 <= i < old(self).points@.len() ==> #[trigger] LightningPolygon::fan_triple_ok(
                    res.1@,
                    old(self).points@.len() as int,
                    i,
                ),
            forall|j: int| 0 <= j < res.1@.len() ==> (res.1@[j] as int) < res.0@.len(),
    {
        let n = self.points.len();
        let mut points: Vec<Point2> = Vec::new();
        points.push(self.center);
        let mut i: usize = 0;
        while i < n
            invariant
                *self == *old(self),
                n == self.points@.len(),
                self.wf(),
                i <= n,
                points@.len() == i + 1,
                points@[0] == self.center,
                forall|j: int| 0 <= j < i ==> points@[j + 1] == self.points@[j],
            decreases n - i,
        {
            points.push(self.points[i]);
            i = i + 1;
        }
        let mut indicies: Vec<u16> = Vec::new();
        let mut i: usize = 1;
        while i <= n
            invariant
                *self == *old(self),
                n == self.points@.len(),
                self.wf(),
                1 <= i <= n + 1,
                indicies@.len() == 3 * (i - 1),
                forall|k: int|
                    0 <= k < i - 1 ==> #[trigger] LightningPolygon::fan_triple_ok(
                        indicies@,
                        n as int,
                        k,
                    ),
                forall|j: int| 0 <= j < indicies@.len() ==> (indicies@[j] as int) <= n,
            decreases n + 1 - i,
        {
            let ghost ind0 = indicies@;
            indicies.push(0u16);
            indicies.push(i as u16);
            let mut si: u16 = i as u16 + 1u16;
            if si == n as u16 + 1u16 {
                si = 1u16;
            }
            indicies.push(si);
            i = i + 1;
            proof {
                assert forall|k: int|
                    0 <= k < i - 1 implies #[trigger] LightningPolygon::fan_triple_ok(
                    indicies@,
                    n as int,
                    k,
                ) by {
                    if k < i - 2 {
                        assert(LightningPolygon::fan_triple_ok(ind0, n as int, k));
                        assert(indicies@[3 * k] == ind0[3 * k]);
                        assert(indicies@[3 * k + 1] == ind0[3 * k + 1]);
                        assert(indicies@[3 * k + 2] == ind0[3 * k + 2]);
                    } else {
                        assert(indicies@[3 * k] == 0u16);
                        assert(indicies@[3 * k + 1] as int == k + 1);
                        assert(indicies@[3 * k + 2] as int == (if k == n - 1 {
                            1int
                        } else {
                            k + 2
                        }));
                    }
                }
            }
        }
        (points, indicies)
    }
}

/// A rotation in the plane, as an angle in milliradian ticks.  Carried
/// with an occluder's transform; a circle is rotation-invariant, so the
/// circle case does not read it.
#[derive(Clone, Copy, Debug, PartialEq, Eq, Structural)]
pub struct Rotation2 {
    pub angle: i64,
}

/// Triangle mesh of one shadow volume: world-space points and the index
/// triples that tile the quadrilateral behind the occluder.
#[derive(Debug)]
pub struct ShadowTriangulation {
    pub points: Vec<Point2>,
    pub indicies: Vec<u16>,
}

/// How far the shadow volume extends behind the occluder, as a multiple of
/// the tangent point's offset from the observer.
pub const SHADOW_REACH: i64 = 10;

/// Builds the shadow cast by one occluder as seen from `observer`: the two
/// tangent points, their projections `SHADOW_REACH` times farther from the
/// observer, and two triangles tiling that quadrilateral.  `None` when the
/// observer is inside or touching the occluder, which casts no shadow
/// silhouette.  Pure in its inputs; no state is kept between calls.
pub fn shadow_geometry(
    observer: Point2,
    geom: Geometry,
    position: Point2,
    rotation: Rotation2,
) -> (res: Option<ShadowTriangulation>)
    requires
        in_range(observer),
        in_range(position),
        (match geom {
            Geometry::Circle { radius } => 1 <= radius && radius <= RADIUS_LIMIT,
        }),
    ensures
        (match geom {
            Geometry::Circle { radius } => {
                &&& (res is Some <==> !tangent_degenerate(position, radius as int, observer))
                &&& res is Some ==> ({
                    let t1 = tangent_pair(position, radius as int, observer).0;
                    let t2 = tangent_pair(position, radius as int, observer).1;
                    &&& res->Some_0.points@ == seq![
                        (pt(t1.0, t1.1)),
                        (pt(t2.0, t2.1)),
                        (pt(
                            t1.0 + SHADOW_REACH * (t1.0 - observer.x),
                            t1.1 + SHADOW_REACH * (t1.1 - observer.y),
                        )),
                        (pt(
                            t2.0 + SHADOW_REACH * (t2.0 - observer.x),
                            t2.1 + SHADOW_REACH * (t2.1 - observer.y),
                        )),
                    ]
                    &&& res->Some_0.indicies@ == seq![0u16, 2u16, 1u16, 1u16, 2u16, 3u16]
                })
            },
        }),
{
    let _ = rotation;
    match geom {
        Geometry::Circle { radius } => {
            let tg = get_tangent(position, radius, observer);
            let (p1, p2) = match tg {
                (Some(p1), Some(p2)) => (p1, p2),
                _ => {
                    return None;
                },
            };
            proof {
                lemma_tangent_point_bounds(position, radius as int, observer, 1);
                lemma_tangent_point_bounds(position, radius as int, observer, -1);
            }
            let f1 = Point2 {
                x: p1.x + SHADOW_REACH * (p1.x - observer.x),
                y: p1.y + SHADOW_REACH * (p1.y - observer.y),
            };
            let f2 = Point2 {
                x: p2.x + SHADOW_REACH * (p2.x - observer.x),
                y: p2.y + SHADOW_REACH * (p2.y - observer.y),
            };
            let mut points: Vec<Point2> = Vec::new();
            points.push(p1);
            points.push(p2);
            points.push(f1);
            points.push(f2);
            let mut indicies: Vec<u16> = Vec::new();
            indicies.push(0u16);
            indicies.push(2u16);
            indicies.push(1u16);
            indicies.push(1u16);
            indicies.push(2u16);
            indicies.push(3u16);
            proof {
                let t1 = tangent_pair(position, radius as int, observer).0;
                let t2 = tangent_pair(position, radius as int, observer).1;
                assert(points@ =~= seq![
                    (pt(t1.0, t1.1)),
                    (pt(t2.0, t2.1)),
                    (pt(
                        t1.0 + SHADOW_REACH * (t1.0 - observer.x),
                        t1.1 + SHADOW_REACH * (t1.1 - observer.y),
                    )),
                    (pt(
                        t2.0 + SHADOW_REACH * (t2.0 - observer.x),
                        t2.1 + SHADOW_REACH * (t2.1 - observer.y),
                    )),
                ]);
                assert(indicies@ =~= seq![0u16, 2u16, 1u16, 1u16, 2u16, 3u16]);
            }
            Some(ShadowTriangulation { points, indicies })
        },
    }
}

} // verus!
