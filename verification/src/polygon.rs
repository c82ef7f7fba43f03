//! Convex asteroid polygons: procedural generation on a randomized circle,
//! exact signed areas, and destructive splitting into smaller convex
//! fragments that partition the original area exactly.

use vstd::prelude::*;
use crate::geometry::{Point2, pt_in_limit, pt, dist2, cross, cross3};
use crate::num::{abs_i, div_round, floor_div_i128, round_div_i128};

verus! {

/// Cap on the vertex count of an asteroid polygon.
pub const POLY_MAX_POINTS: usize = 64;

/// Sum of the x coordinates of the first `i` points.
pub open spec fn sum_x_upto(s: Seq<Point2>, i: int) -> int
    decreases i,
{
    if i <= 0 {
        0
    } else {
        sum_x_upto(s, i - 1) + s[i - 1].x
    }
}

/// Sum of the y coordinates of the first `i` points.
pub open spec fn sum_y_upto(s: Seq<Point2>, i: int) -> int
    decreases i,
{
    if i <= 0 {
        0
    } else {
        sum_y_upto(s, i - 1) + s[i - 1].y
    }
}

/// The vertex centroid of a polygon: the coordinate averages, rounded down.
pub open spec fn centroid(s: Seq<Point2>) -> (int, int)
    recommends
        s.len() > 0,
{
    (sum_x_upto(s, s.len() as int) / s.len() as int, sum_y_upto(s, s.len() as int) / s.len() as int)
}

/// The k-th term of the shoelace sum: the cross product of vertex k and its
/// clockwise successor, wrapping at the end.
pub open spec fn shoelace_term(s: Seq<Point2>, k: int) -> int {
    let a = s[k];
    let b = s[if k + 1 == s.len() as int {
        0int
    } else {
        k + 1
    }];
    cross(a.x as int, a.y as int, b.x as int, b.y as int)
}

/// Partial shoelace sum over the first `i` edges.
pub open spec fn shoelace_upto(s: Seq<Point2>, i: int) -> int
    decreases i,
{
    if i <= 0 {
        0
    } else {
        shoelace_upto(s, i - 1) + shoelace_term(s, i - 1)
    }
}

/// Twice the signed area of the polygon (negative for clockwise winding).
pub open spec fn area2(s: Seq<Point2>) -> int {
    shoelace_upto(s, s.len() as int)
}

/// All points of the sequence lie within `POINT_LIMIT`.
pub open spec fn all_in_limit(s: Seq<Point2>) -> bool {
    forall|i: int| 0 <= i < s.len() ==> pt_in_limit(#[trigger] s[i])
}

/// A convex polygon in polygon-local space, with the center it was built
/// around.  Fragment and generation code keeps the winding clockwise and
/// the vertex count small.
#[derive(Clone, Debug)]
pub struct Polygon {
    pub points: Vec<Point2>,
    pub center: Point2,
}

impl Polygon {
    /// Well-formed: at least a triangle, capped, all points in range, and
    /// the stored center is the vertex centroid.
    pub open spec fn wf(self) -> bool {
        &&& 3 <= self.points@.len() <= POLY_MAX_POINTS
        &&& all_in_limit(self.points@)
        &&& self.center.x as int == centroid(self.points@).0
        &&& self.center.y as int == centroid(self.points@).1
    }

    /// The polygon's center, as stored at construction.
    pub fn center(&self) -> (c: Point2)
        ensures
            c == self.center,
    {
        self.center
    }

    /// Builds a polygon from its vertices, deriving the center as the
    /// vertex centroid.
    pub fn from_points(points: Vec<Point2>) -> (p: Polygon)
        requires
            3 <= points@.len() <= POLY_MAX_POINTS,
            all_in_limit(points@),
        ensures
            p.points@ == points@,
            p.wf(),
    {
        let n = points.len();
        let mut sx: i128 = 0;
        let mut sy: i128 = 0;
        let mut i: usize = 0;
        while i < n
            invariant
                n == points@.len(),
                3 <= n <= POLY_MAX_POINTS,
                all_in_limit(points@),
                i <= n,
                sx == sum_x_upto(points@, i as int),
                sy == sum_y_upto(points@, i as int),
                abs_i(sx as int) <= i * 2_000_000,
                abs_i(sy as int) <= i * 2_000_000,
            decreases n - i,
        {
            let q = points[i];
            sx = sx + q.x as i128;
            sy = sy + q.y as i128;
            i = i + 1;
        }
        let cx = floor_div_i128(sx, n as i128);
        let cy = floor_div_i128(sy, n as i128);
        proof {
            assert((-2_000_000) * (n as int) <= sx as int <= 2_000_000 * (n as int))
                by (nonlinear_arith)
                requires
                    abs_i(sx as int) <= (n as int) * 2_000_000,
            ;
            assert((-2_000_000) * (n as int) <= sy as int <= 2_000_000 * (n as int))
                by (nonlinear_arith)
                requires
                    abs_i(sy as int) <= (n as int) * 2_000_000,
            ;
            lemma_floor_div_bounds(sx as int, n as int, -2_000_000, 2_000_000);
            lemma_floor_div_bounds(sy as int, n as int, -2_000_000, 2_000_000);
        }
        Polygon { points, center: Point2 { x: cx as i64, y: cy as i64 } }
    }

    /// Twice the polygon's signed area, exactly.
    pub fn area2(&self) -> (a: i128)
        requires
            self.wf(),
        ensures
            a == area2(self.points@),
            abs_i(a as int) <= self.points@.len() * 8_000_000_000_000,
    {
        let n = self.points.len();
        let mut acc: i128 = 0;
        let mut i: usize = 0;
        while i < n
            invariant
                n == self.points@.len(),
                3 <= n <= POLY_MAX_POINTS,
                all_in_limit(self.points@),
                i <= n,
                acc == shoelace_upto(self.points@, i as int),
                abs_i(acc as int) <= i * 8_000_000_000_000,
            decreases n - i,
        {
            let a = self.points[i];
            let j = if i + 1 == n {
                0
            } else {
                i + 1
            };
            let b = self.points[j];
            proof {
                assert(abs_i(a.x as int * b.y as int) <= 4_000_000_000_000int && abs_i(
                    a.y as int * b.x as int,
                ) <= 4_000_000_000_000int) by (nonlinear_arith)
                    requires
                        abs_i(a.x as int) <= 2_000_000,
                        abs_i(a.y as int) <= 2_000_000,
                        abs_i(b.x as int) <= 2_000_000,
                        abs_i(b.y as int) <= 2_000_000,
                ;
            }
            let t = a.x as i128 * b.y as i128 - a.y as i128 * b.x as i128;
            acc = acc + t;
            i = i + 1;
        }
        acc
    }
}

/// Tangent-half resolution per quadrant of the direction table.
pub const DIR_RES: i64 = 1024;

/// One step of the linear congruential generator that drives all
/// procedural choices; the caller supplies the seed, so every draw is
/// reproducible.
pub open spec fn spec_lcg(s: u64) -> u64 {
    ((6364136223846793005 * s + 1442695040888963407) % 0x1_0000_0000_0000_0000) as u64
}

/// Advances the seeded generator by one step.
pub fn lcg_next(s: u64) -> (r: u64)
    ensures
        r == spec_lcg(s),
{
    let v: u128 = (6364136223846793005u128 * s as u128 + 1442695040888963407u128)
        % 0x1_0000_0000_0000_0000u128;
    v as u64
}

/// A point at angle parameter `u` (0..=DIR_RES) in the first quadrant of
/// the circle of radius `r`, by the tangent-half-angle parametrization,
/// rounded to the grid.
pub open spec fn quarter_point(r: int, u: int) -> (int, int) {
    let den = DIR_RES * DIR_RES + u * u;
    (div_round((DIR_RES * DIR_RES - u * u) * r, den), div_round(2 * DIR_RES * u * r, den))
}

/// A point on the circle of radius `r` at angle key `k` (0..4*DIR_RES):
/// the quarter-circle point rotated into quadrant `k / DIR_RES` and
/// mirrored, so the angle falls monotonically with `k` — ascending keys
/// walk the circle clockwise, the winding convention of the polygons.
pub open spec fn dir_point(r: int, k: int) -> (int, int) {
    let q = k / (DIR_RES as int);
    let u = k % (DIR_RES as int);
    let b = quarter_point(r, u);
    if q == 0 {
        (b.0, -b.1)
    } else if q == 1 {
        (-b.1, -b.0)
    } else if q == 2 {
        (-b.0, b.1)
    } else {
        (b.1, b.0)
    }
}

/// Computes `dir_point` for an angle key, with both coordinates within `r`.
fn dir_point_of(r: i64, k: u64) -> (p: Point2)
    requires
        1 <= r <= 1_000_000,
        k < 4096,
    ensures
        p.x as int == dir_point(r as int, k as int).0,
        p.y as int == dir_point(r as int, k as int).1,
        -r <= p.x <= r,
        -r <= p.y <= r,
{
    let q = k / 1024;
    let u = (k % 1024) as i128;
    let ri = r as i128;
    let ff: i128 = 1024 * 1024;
    proof {
        let ui = u as int;
        assert(0 <= ui * ui <= 1048576 && 2 * 1024 * ui <= 1048576 + ui * ui)
            by (nonlinear_arith)
            requires
                0 <= ui <= 1023,
        ;
        assert(abs_i((1048576 - ui * ui) * (ri as int)) <= (1048576 + ui * ui) * (ri as int)
            && abs_i(2 * 1024 * ui * (ri as int)) <= (1048576 + ui * ui) * (ri as int) && abs_i(
            (1048576 - ui * ui) * (ri as int),
        ) <= 2_097_152_000_000 && abs_i(2 * 1024 * ui * (ri as int)) <= 2_097_152_000_000)
            by (nonlinear_arith)
            requires
                0 <= ui * ui <= 1048576,
                2 * 1024 * ui <= 1048576 + ui * ui,
                0 <= 2 * 1024 * ui,
                1 <= ri as int <= 1_000_000,
        ;
    }
    let den = ff + u * u;
    let bx = round_div_i128((ff - u * u) * ri, den);
    let by = round_div_i128(2 * 1024 * u * ri, den);
    proof {
        let ui = u as int;
        assert(den as int == 1048576 + ui * ui);
        assert((1048576 + ui * ui) * (ri as int) == (ri as int) * (den as int))
            by (nonlinear_arith)
            requires
                den as int == 1048576 + ui * ui,
        ;
        lemma_div_round_in_radius((1048576 - ui * ui) * (ri as int), den as int, ri as int);
        lemma_div_round_in_radius(2 * 1024 * ui * (ri as int), den as int, ri as int);
    }
    if q == 0 {
        Point2 { x: bx as i64, y: -by as i64 }
    } else if q == 1 {
        Point2 { x: -by as i64, y: -bx as i64 }
    } else if q == 2 {
        Point2 { x: -bx as i64, y: by as i64 }
    } else {
        Point2 { x: by as i64, y: bx as i64 }
    }
}

/// A rounded quotient with numerator bounded by `r` times the denominator
/// stays within `r`.
proof fn lemma_div_round_in_radius(num: int, den: int, r: int)
    requires
        den >= 1,
        r >= 1,
        abs_i(num) <= r * den,
    ensures
        -r <= div_round(num, den) <= r,
{
    assert((-r) * den <= num <= r * den) by (nonlinear_arith)
        requires
            abs_i(num) <= r * den,
    ;
    crate::num::lemma_div_round_bounds(num, den, -r, r);
}

/// Sorts the angle keys ascending: the output is a permutation of the
/// input (same multiset), and every key stays below `bound`.
fn sort_keys(v: &mut Vec<u64>, bound: u64)
    requires
        forall|i: int| 0 <= i < old(v)@.len() ==> old(v)@[i] < bound,
    ensures
        final(v)@.len() == old(v)@.len(),
        final(v)@.to_multiset() == old(v)@.to_multiset(),
        forall|i: int| 0 <= i < final(v)@.len() ==> final(v)@[i] < bound,
        forall|i: int, j: int|
            0 <= i <= j < final(v)@.len() ==> final(v)@[i] <= final(v)@[j],
{
    let n = v.len();
    let mut out: Vec<u64> = Vec::new();
    proof {
        assert(out@ =~= v@.subrange(0, 0));
    }
    let mut i: usize = 0;
    while i < n
        invariant
            n == v@.len(),
            v@ == old(v)@,
            forall|t: int| 0 <= t < v@.len() ==> v@[t] < bound,
            i <= n,
            out@.len() == i,
            out@.to_multiset() == v@.subrange(0, i as int).to_multiset(),
            forall|t: int| 0 <= t < out@.len() ==> out@[t] < bound,
            forall|a: int, b: int| 0 <= a <= b < out@.len() ==> out@[a] <= out@[b],
        decreases n - i,
    {
        let x = v[i];
        let mut pos: usize = 0;
        while pos < out.len() && out[pos] <= x
            invariant
                pos <= out@.len(),
                forall|t: int| 0 <= t < pos ==> out@[t] <= x,
            decreases out@.len() - pos,
        {
            pos = pos + 1;
        }
        let ghost out0 = out@;
        out.insert(pos, x);
        proof {
            // Permutation: the insert splits the old sequence around `pos`.
            broadcast use vstd::multiset::group_multiset_axioms;

            let sub0 = out0.subrange(0, pos as int);
            let sub1 = out0.subrange(pos as int, out0.len() as int);
            assert(out0 =~= sub0 + sub1);
            assert(out@ =~= sub0.push(x) + sub1);
            vstd::seq_lib::lemma_multiset_commutative(sub0.push(x), sub1);
            vstd::seq_lib::to_multiset_build(sub0, x);
            vstd::seq_lib::lemma_multiset_commutative(sub0, sub1);
            assert(out@.to_multiset() =~= out0.to_multiset().insert(x));
            assert(v@.subrange(0, i as int + 1) =~= v@.subrange(0, i as int).push(x));
            vstd::seq_lib::to_multiset_build(v@.subrange(0, i as int), x);
            assert forall|a: int, b: int|
                0 <= a <= b < out@.len() implies out@[a] <= out@[b] by {
                let p = pos as int;
                if a < p && b < p {
                    assert(out@[a] == out0[a] && out@[b] == out0[b]);
                } else if a < p && b == p {
                    assert(out@[a] == out0[a] && out@[b] == x);
                } else if a < p && b > p {
                    assert(out@[a] == out0[a] && out@[b] == out0[b - 1]);
                    assert(out0[a] <= x);
                    if p <= b - 1 {
                        assert(out0[p] <= out0[b - 1]);
                        assert(out0[p] > x);
                    }
                } else if a == p && b == p {
                } else if a == p && b > p {
                    assert(out@[a] == x && out@[b] == out0[b - 1]);
                    assert(out0[p] <= out0[b - 1]);
                    assert(out0[p] > x);
                } else {
                    assert(out@[a] == out0[a - 1] && out@[b] == out0[b - 1]);
                }
            }
        }
        i = i + 1;
    }
    proof {
        assert(v@.subrange(0, n as int) =~= v@);
    }
    *v = out;
}

/// Target vertex count: at least a triangle, at most the cap.
pub open spec fn clamp_count(n: int) -> int {
    if n < 3 {
        3
    } else if n > POLY_MAX_POINTS {
        POLY_MAX_POINTS as int
    } else {
        n
    }
}

/// The generator's state after `n` steps from `seed`.
pub open spec fn lcg_iter(seed: u64, n: int) -> u64
    decreases n,
{
    if n <= 0 {
        seed
    } else {
        spec_lcg(lcg_iter(seed, n - 1))
    }
}

/// The radius the generator draws: the first step of the seeded stream,
/// folded into [minr, maxr].
pub open spec fn gen_radius(minr: int, maxr: int, seed: u64) -> int {
    minr + lcg_iter(seed, 1) as int % (maxr - minr + 1)
}

/// The angle keys the generator draws, in draw order: stream steps 2
/// onwards, folded into one turn of the direction table.
pub open spec fn drawn_keys(seed: u64, count: int) -> Seq<u64> {
    Seq::new(count as nat, |i: int| (lcg_iter(seed, i + 2) as int % 4096) as u64)
}

/// The generated polygon's vertices all lie on one circle of radius `r`,
/// at angle keys sorted ascending — which is what makes the winding
/// convex and clockwise.
pub open spec fn gen_witness(ptsq: Seq<Point2>, r: int, keys: Seq<u64>) -> bool {
    &&& keys.len() == ptsq.len()
    &&& forall|i: int| 0 <= i < keys.len() ==> #[trigger] keys[i] < 4 * DIR_RES
    &&& forall|i: int, j: int| 0 <= i <= j < keys.len() ==> #[trigger] keys[i] <= #[trigger] keys[j]
    &&& forall|i: int|
        0 <= i < ptsq.len() ==> #[trigger] ptsq[i] == pt(
            dir_point(r, keys[i] as int).0,
            dir_point(r, keys[i] as int).1,
        )
}

/// Generates a convex polygon with about `n` vertices: one radius drawn
/// from [min_radius, max_radius], `n` angle keys drawn and sorted so the
/// winding stays convex and clockwise.  Every draw is a function of the
/// supplied seed alone: the radius is `gen_radius`, and the vertices sit
/// at the sorted arrangement of exactly the keys of `drawn_keys`, so the
/// whole result is pinned by the seed.
pub fn generate_convex_polygon(n: usize, min_radius: i64, max_radius: i64, seed: u64) -> (p:
    Polygon)
    requires
        1 <= min_radius <= max_radius <= 1_000_000,
    ensures
        p.wf(),
        p.points@.len() == clamp_count(n as int),
        exists|keys: Seq<u64>|
            {
                &&& #[trigger] gen_witness(
                    p.points@,
                    gen_radius(min_radius as int, max_radius as int, seed),
                    keys,
                )
                &&& keys.to_multiset() == drawn_keys(seed, clamp_count(n as int)).to_multiset()
            },
{
    let count: usize = if n < 3 {
        3
    } else if n > POLY_MAX_POINTS {
        POLY_MAX_POINTS
    } else {
        n
    };
    let mut st = lcg_next(seed);
    proof {
        assert(lcg_iter(seed, 1) == spec_lcg(lcg_iter(seed, 0)));
        assert(st == lcg_iter(seed, 1));
    }
    let span = (max_radius - min_radius + 1) as u64;
    let radius = min_radius + (st % span) as i64;
    proof {
        assert(radius as int == gen_radius(min_radius as int, max_radius as int, seed));
    }
    let mut keys: Vec<u64> = Vec::new();
    let mut i: usize = 0;
    while i < count
        invariant
            i <= count,
            st == lcg_iter(seed, i as int + 1),
            keys@.len() == i,
            forall|t: int|
                0 <= t < keys@.len() ==> #[trigger] keys@[t] == (lcg_iter(seed, t + 2) as int
                    % 4096) as u64,
            forall|t: int| 0 <= t < keys@.len() ==> keys@[t] < 4096,
        decreases count - i,
    {
        st = lcg_next(st);
        proof {
            assert(lcg_iter(seed, i as int + 2) == spec_lcg(lcg_iter(seed, i as int + 1)));
        }
        keys.push(st % 4096);
        i = i + 1;
    }
    proof {
        assert(keys@ =~= drawn_keys(seed, count as int));
    }
    let ghost drawn = keys@;
    sort_keys(&mut keys, 4096);
    let mut points: Vec<Point2> = Vec::new();
    let mut i: usize = 0;
    while i < count
        invariant
            i <= count,
            3 <= count <= POLY_MAX_POINTS,
            1 <= radius <= 1_000_000,
            keys@.len() == count,
            forall|t: int| 0 <= t < keys@.len() ==> keys@[t] < 4096,
            forall|a: int, b: int| 0 <= a <= b < keys@.len() ==> keys@[a] <= keys@[b],
            points@.len() == i,
            forall|t: int| 0 <= t < points@.len() ==> pt_in_limit(#[trigger] points@[t]),
            forall|t: int|
                0 <= t < points@.len() ==> #[trigger] points@[t] == pt(
                    dir_point(radius as int, keys@[t] as int).0,
                    dir_point(radius as int, keys@[t] as int).1,
                ),
        decreases count - i,
    {
        let k = keys[i];
        let q = dir_point_of(radius, k);
        points.push(q);
        i = i + 1;
    }
    let p = Polygon::from_points(points);
    proof {
        assert(gen_witness(p.points@, radius as int, keys@));
        assert(keys@.to_multiset() == drawn_keys(seed, clamp_count(n as int)).to_multiset());
    }
    p
}

/// Open shoelace tail: the cross terms of consecutive vertices (no wrap)
/// from index `i` on.
spec fn tail_sl(s: Seq<Point2>, i: int) -> int
    decreases s.len() - i,
{
    if i + 1 >= s.len() || i < 0 {
        0
    } else {
        cross(s[i].x as int, s[i].y as int, s[i + 1].x as int, s[i + 1].y as int) + tail_sl(
            s,
            i + 1,
        )
    }
}

/// Fan terms anchored at s[0], for triangle bases t in [a, b).
pub open spec fn fan_range(s: Seq<Point2>, a: int, b: int) -> int
    decreases b - a,
{
    if a >= b {
        0
    } else {
        cross3(s[0], s[a], s[a + 1]) + fan_range(s, a + 1, b)
    }
}

/// Shoelace partial sums split at any interior index.
proof fn lemma_upto_tail(s: Seq<Point2>, i: int)
    requires
        0 <= i <= s.len() - 1,
    ensures
        shoelace_upto(s, s.len() - 1) == shoelace_upto(s, i) + tail_sl(s, i),
    decreases s.len() - i,
{
    if i < s.len() - 1 {
        lemma_upto_tail(s, i + 1);
    }
}

/// The anchored fan over [i, len-1) equals the open shoelace tail plus the
/// two chords back to the anchor.
proof fn lemma_fan_decomp(s: Seq<Point2>, i: int)
    requires
        s.len() >= 2,
        1 <= i <= s.len() - 1,
    ensures
        fan_range(s, i, s.len() - 1) == tail_sl(s, i) + cross(
            s[0].x as int,
            s[0].y as int,
            s[i].x as int,
            s[i].y as int,
        ) - cross(
            s[0].x as int,
            s[0].y as int,
            s[s.len() - 1].x as int,
            s[s.len() - 1].y as int,
        ),
    decreases s.len() - i,
{
    if i == s.len() - 1 {
    } else {
        lemma_fan_decomp(s, i + 1);
        let o = s[0];
        let p = s[i];
        let q = s[i + 1];
        assert(cross3(o, p, q) == cross(p.x as int, p.y as int, q.x as int, q.y as int) + cross(
            o.x as int,
            o.y as int,
            p.x as int,
            p.y as int,
        ) - cross(o.x as int, o.y as int, q.x as int, q.y as int)) by (nonlinear_arith);
    }
}

/// The shoelace area equals the fan anchored at the first vertex.
pub proof fn lemma_area_fan(s: Seq<Point2>)
    requires
        s.len() >= 3,
    ensures
        area2(s) == fan_range(s, 1, s.len() - 1),
{
    let n = s.len() as int;
    lemma_upto_tail(s, 1);
    lemma_fan_decomp(s, 1);
    let o = s[0];
    let l = s[n - 1];
    assert(cross(l.x as int, l.y as int, o.x as int, o.y as int) == -cross(
        o.x as int,
        o.y as int,
        l.x as int,
        l.y as int,
    )) by (nonlinear_arith);
    assert(area2(s) == shoelace_upto(s, n - 1) + shoelace_term(s, n - 1));
    assert(shoelace_upto(s, 0) == 0);
    assert(shoelace_upto(s, 1) == shoelace_term(s, 0));
}

/// Fans over adjacent ranges add.
proof fn lemma_fan_range_concat(s: Seq<Point2>, a: int, m: int, b: int)
    requires
        a <= m <= b,
    ensures
        fan_range(s, a, b) == fan_range(s, a, m) + fan_range(s, m, b),
    decreases m - a,
{
    if a < m {
        lemma_fan_range_concat(s, a + 1, m, b);
    }
}

/// The polygon rotated by one vertex: same boundary, same area.
spec fn rot1(s: Seq<Point2>) -> Seq<Point2> {
    s.subrange(1, s.len() as int) + s.subrange(0, 1)
}

/// Partial shoelace sums of the rotation, shifted by one.
proof fn lemma_rot1_upto(s: Seq<Point2>, m: int)
    requires
        s.len() >= 2,
        0 <= m <= s.len() - 2,
    ensures
        shoelace_upto(rot1(s), m) == shoelace_upto(s, m + 1) - shoelace_upto(s, 1),
    decreases m,
{
    if m > 0 {
        lemma_rot1_upto(s, m - 1);
        assert(rot1(s)[m - 1] == s[m]);
        assert(rot1(s)[m] == s[m + 1]);
    }
}

/// Rotating the vertex list by one leaves the signed area unchanged.
proof fn lemma_rot1_area(s: Seq<Point2>)
    requires
        s.len() >= 3,
    ensures
        area2(rot1(s)) == area2(s),
{
    let n = s.len() as int;
    let r = rot1(s);
    lemma_rot1_upto(s, n - 2);
    assert(r.len() == n);
    assert(r[n - 2] == s[n - 1]);
    assert(r[n - 1] == s[0]);
    assert(r[0] == s[1]);
    assert(shoelace_upto(r, n) == shoelace_upto(r, n - 1) + shoelace_term(r, n - 1));
    assert(shoelace_upto(r, n - 1) == shoelace_upto(r, n - 2) + shoelace_term(r, n - 2));
    assert(area2(r) == shoelace_upto(r, n - 2) + shoelace_term(r, n - 2) + shoelace_term(
        r,
        n - 1,
    ));
    assert(shoelace_term(r, n - 2) == cross(
        s[n - 1].x as int,
        s[n - 1].y as int,
        s[0].x as int,
        s[0].y as int,
    ));
    assert(shoelace_term(r, n - 1) == cross(
        s[0].x as int,
        s[0].y as int,
        s[1].x as int,
        s[1].y as int,
    ));
    assert(area2(s) == shoelace_upto(s, n - 1) + shoelace_term(s, n - 1));
    assert(shoelace_upto(s, 0) == 0);
    assert(shoelace_upto(s, 1) == shoelace_term(s, 0));
}

/// The vertex list rotated so index `a` comes first.
pub open spec fn rotate_seq(s: Seq<Point2>, a: int) -> Seq<Point2> {
    s.subrange(a, s.len() as int) + s.subrange(0, a)
}

/// Rotating the vertex list leaves the signed area unchanged.
pub proof fn lemma_rotate_area(s: Seq<Point2>, a: int)
    requires
        s.len() >= 3,
        0 <= a <= s.len(),
    ensures
        area2(rotate_seq(s, a)) == area2(s),
    decreases a,
{
    if a == 0 {
        assert(rotate_seq(s, 0) =~= s);
    } else {
        lemma_rotate_area(s, a - 1);
        let prev = rotate_seq(s, a - 1);
        assert(rotate_seq(s, a) =~= rot1(prev));
        lemma_rot1_area(prev);
    }
}

/// A wedge fragment: the anchor vertex followed by one boundary arc.
pub open spec fn wedge(v: Seq<Point2>, a: int, b: int) -> Seq<Point2> {
    seq![v[0]] + v.subrange(a, b + 1)
}

/// A wedge's fan, anchored at its own first vertex, walks exactly the fan
/// terms of the parent polygon over the arc.
proof fn lemma_wedge_fan_shift(v: Seq<Point2>, a: int, b: int, t: int)
    requires
        1 <= a < b <= v.len() - 1,
        1 <= t <= b - a + 1,
    ensures
        fan_range(wedge(v, a, b), t, b - a + 1) == fan_range(v, a + t - 1, b),
    decreases b - a + 1 - t,
{
    let w = wedge(v, a, b);
    assert(w.len() == b - a + 2);
    if t < b - a + 1 {
        lemma_wedge_fan_shift(v, a, b, t + 1);
        assert(w[0] == v[0]);
        assert(w[t] == v[a + t - 1]);
        assert(w[t + 1] == v[a + t]);
    }
}

/// Twice the signed area of a wedge equals the parent's fan over its arc.
pub proof fn lemma_wedge_area(v: Seq<Point2>, a: int, b: int)
    requires
        1 <= a < b <= v.len() - 1,
    ensures
        area2(wedge(v, a, b)) == fan_range(v, a, b),
{
    let w = wedge(v, a, b);
    assert(w.len() == b - a + 2 >= 3);
    lemma_area_fan(w);
    lemma_wedge_fan_shift(v, a, b, 1);
}

/// Terminal threshold on twice the polygon area, in ticks squared: below
/// it the polygon is no longer split.
pub const DECONSTRUCT_MIN_AREA2: i64 = 250_000;

/// A polygon too small to split further: fewer than four vertices (a
/// triangle has no vertex chord) or area below the minimum.
pub open spec fn deconstruct_terminal(s: Seq<Point2>) -> bool {
    s.len() < 4 || abs_i(area2(s)) < DECONSTRUCT_MIN_AREA2
}

/// Index of the vertex nearest to `p` among the first `i`, first on ties.
pub open spec fn nearest_vertex_upto(s: Seq<Point2>, p: Point2, i: int) -> int
    decreases i,
{
    if i <= 1 {
        0
    } else {
        let prev = nearest_vertex_upto(s, p, i - 1);
        if dist2(s[i - 1], p) < dist2(s[prev], p) {
            i - 1
        } else {
            prev
        }
    }
}

/// Index of the vertex of `s` nearest to `p`.
pub open spec fn nearest_vertex(s: Seq<Point2>, p: Point2) -> int {
    nearest_vertex_upto(s, p, s.len() as int)
}

proof fn lemma_nearest_in_range(s: Seq<Point2>, p: Point2, i: int)
    requires
        i >= 1,
    ensures
        0 <= nearest_vertex_upto(s, p, i) < i,
    decreases i,
{
    if i > 1 {
        lemma_nearest_in_range(s, p, i - 1);
    }
}

/// How many fragments a destruction produces: 2 plus a seeded draw below
/// `num_sites`, capped by the vertex count.
pub open spec fn frag_count(n: int, num_sites: int, seed: u64) -> int {
    let span = if num_sites < 2 {
        2int
    } else {
        num_sites
    };
    let k0 = if span <= 2 {
        2int
    } else {
        2 + spec_lcg(seed) as int % (span - 1)
    };
    if k0 > n - 2 {
        n - 2
    } else {
        k0
    }
}

/// Cut index `j` of `k`: the arc 1..=n-1 divided into `k` near-even spans.
pub open spec fn cut_at(n: int, k: int, j: int) -> int {
    1 + (j * (n - 2)) / k
}

/// Consecutive cuts are strictly increasing.
proof fn lemma_cut_mono(n: int, k: int, j: int)
    requires
        2 <= k <= n - 2,
        0 <= j < k,
    ensures
        cut_at(n, k, j) < cut_at(n, k, j + 1),
{
    let x = j * (n - 2);
    let y = n - 2;
    assert(x >= 0) by (nonlinear_arith)
        requires
            x == j * (n - 2),
            j >= 0,
            n - 2 >= 0,
    ;
    assert((j + 1) * (n - 2) == x + y) by (nonlinear_arith)
        requires
            x == j * (n - 2),
            y == n - 2,
    ;
    vstd::arithmetic::div_mod::lemma_fundamental_div_mod(x, k);
    vstd::arithmetic::div_mod::lemma_mod_bound(x, k);
    vstd::arithmetic::div_mod::lemma_fundamental_div_mod(y, k);
    vstd::arithmetic::div_mod::lemma_mod_bound(y, k);
    let qx = x / k;
    let rx = x % k;
    let qy = y / k;
    let ry = y % k;
    assert(qy >= 1) by {
        vstd::arithmetic::div_mod::lemma_div_is_ordered(k, y, k);
        vstd::arithmetic::div_mod::lemma_div_by_self(k);
    }
    assert(x + y == (qx + qy) * k + (rx + ry)) by (nonlinear_arith)
        requires
            x == k * qx + rx,
            y == k * qy + ry,
    ;
    if rx + ry < k {
        vstd::arithmetic::div_mod::lemma_fundamental_div_mod_converse_div(
            x + y,
            k,
            qx + qy,
            rx + ry,
        );
    } else {
        assert(x + y == (qx + qy + 1) * k + (rx + ry - k)) by (nonlinear_arith)
            requires
                x + y == (qx + qy) * k + (rx + ry),
        ;
        vstd::arithmetic::div_mod::lemma_fundamental_div_mod_converse_div(
            x + y,
            k,
            qx + qy + 1,
            rx + ry - k,
        );
    }
}

/// Every cut lies on the arc; the first is 1 and the last is n - 1.
proof fn lemma_cut_bounds(n: int, k: int, j: int)
    requires
        2 <= k <= n - 2,
        0 <= j <= k,
    ensures
        1 <= cut_at(n, k, j) <= n - 1,
        j == 0 ==> cut_at(n, k, j) == 1,
        j == k ==> cut_at(n, k, j) == n - 1,
{
    let x = j * (n - 2);
    assert(0 <= x && x <= k * (n - 2)) by (nonlinear_arith)
        requires
            x == j * (n - 2),
            0 <= j <= k,
            n - 2 >= 0,
    ;
    vstd::arithmetic::div_mod::lemma_div_pos_is_pos(x, k);
    vstd::arithmetic::div_mod::lemma_div_is_ordered(x, k * (n - 2), k);
    assert(k * (n - 2) == (n - 2) * k) by (nonlinear_arith);
    vstd::arithmetic::div_mod::lemma_div_multiples_vanish(n - 2, k);
    if j == 0 {
        assert(0 * (n - 2) == 0) by (nonlinear_arith);
        vstd::arithmetic::div_mod::lemma_div_of0(k);
    }
    if j == k {
    }
}

/// Sum of twice the signed areas of the first `i` fragments.
pub open spec fn total_area2_upto(ps: Seq<Polygon>, i: int) -> int
    decreases i,
{
    if i <= 0 {
        0
    } else {
        total_area2_upto(ps, i - 1) + area2(ps[i - 1].points@)
    }
}

/// Sum of twice the signed areas of all fragments.
pub open spec fn total_area2(ps: Seq<Polygon>) -> int {
    total_area2_upto(ps, ps.len() as int)
}

/// Appending a fragment does not change the sum over the earlier ones.
proof fn lemma_total_area2_push(ps: Seq<Polygon>, q: Polygon, i: int)
    requires
        0 <= i <= ps.len(),
    ensures
        total_area2_upto(ps.push(q), i) == total_area2_upto(ps, i),
    decreases i,
{
    if i > 0 {
        lemma_total_area2_push(ps, q, i - 1);
        assert(ps.push(q)[i - 1] == ps[i - 1]);
    }
}

/// Fragment `j` of a destruction: the wedge of the rotated parent between
/// consecutive cuts.
pub open spec fn fragment_ok(
    frag: Polygon,
    s: Seq<Point2>,
    anchor: int,
    n: int,
    k: int,
    j: int,
) -> bool {
    frag.points@ == wedge(rotate_seq(s, anchor), cut_at(n, k, j), cut_at(n, k, j + 1))
}

/// Squared distance between two points, computed exactly.
fn dist2_e(c: Point2, p: Point2) -> (d: i128)
    requires
        pt_in_limit(c),
        pt_in_limit(p),
    ensures
        d == dist2(c, p),
{
    let dx = p.x as i128 - c.x as i128;
    let dy = p.y as i128 - c.y as i128;
    proof {
        assert(0 <= dx as int * dx as int <= 16_000_000_000_000int && 0 <= dy as int * dy as int
            <= 16_000_000_000_000int) by (nonlinear_arith)
            requires
                -4_000_000 <= dx as int <= 4_000_000,
                -4_000_000 <= dy as int <= 4_000_000,
        ;
    }
    dx * dx + dy * dy
}

impl Polygon {
    /// Splits the polygon into convex fragments around the impact point:
    /// the boundary arc is cut at the vertex nearest the impact and divided
    /// into wedges, so the fragment areas sum exactly to the original area.
    /// A polygon below the minimum size comes back unsplit, as the single
    /// terminal fragment.  All random draws come from the supplied seed.
    pub fn deconstruct(&self, impact: Point2, num_sites: usize, seed: u64) -> (res: Vec<Polygon>)
        requires
            self.wf(),
            pt_in_limit(impact),
        ensures
            res@.len() >= 1,
            forall|j: int| 0 <= j < res@.len() ==> (#[trigger] res@[j]).wf(),
            deconstruct_terminal(self.points@) ==> res@.len() == 1 && res@[0].points@
                == self.points@ && res@[0].center == self.center,
            !deconstruct_terminal(self.points@) ==> res@.len() == frag_count(
                self.points@.len() as int,
                num_sites as int,
                seed,
            ) && 2 <= res@.len() && (num_sites >= 2 ==> res@.len() <= num_sites),
            !deconstruct_terminal(self.points@) ==> total_area2(res@) == area2(self.points@),
            !deconstruct_terminal(self.points@) ==> forall|j: int|
                0 <= j < res@.len() ==> fragment_ok(
                    #[trigger] res@[j],
                    self.points@,
                    nearest_vertex(self.points@, impact),
                    self.points@.len() as int,
                    res@.len() as int,
                    j,
                ),
    {
        let ghost s = self.points@;
        let n = self.points.len();
        let a2 = self.area2();
        let a2abs = if a2 < 0 {
            -a2
        } else {
            a2
        };
        if n < 4 || a2abs < DECONSTRUCT_MIN_AREA2 as i128 {
            let mut ps: Vec<Point2> = Vec::new();
            let mut i: usize = 0;
            while i < n
                invariant
                    n == self.points@.len(),
                    i <= n,
                    ps@ == self.points@.subrange(0, i as int),
                decreases n - i,
            {
                let q = self.points[i];
                ps.push(q);
                i = i + 1;
                proof {
                    assert(ps@ =~= self.points@.subrange(0, i as int));
                }
            }
            proof {
                assert(ps@ =~= self.points@);
            }
            let frag = Polygon { points: ps, center: self.center };
            let mut res: Vec<Polygon> = Vec::new();
            res.push(frag);
            return res;
        }
        let mut anchor: usize = 0;
        let mut i: usize = 1;
        while i < n
            invariant
                self.wf(),
                pt_in_limit(impact),
                n == self.points@.len(),
                1 <= i <= n,
                anchor < i,
                anchor as int == nearest_vertex_upto(self.points@, impact, i as int),
            decreases n - i,
        {
            let di = dist2_e(self.points[i], impact);
            let db = dist2_e(self.points[anchor], impact);
            if di < db {
                anchor = i;
            }
            i = i + 1;
        }
        proof {
            lemma_nearest_in_range(s, impact, n as int);
        }
        let mut v: Vec<Point2> = Vec::new();
        let mut i: usize = anchor;
        while i < n
            invariant
                self.wf(),
                n == self.points@.len(),
                anchor <= i <= n,
                anchor < n,
                v@ == self.points@.subrange(anchor as int, i as int),
            decreases n - i,
        {
            let q = self.points[i];
            v.push(q);
            i = i + 1;
            proof {
                assert(v@ =~= self.points@.subrange(anchor as int, i as int));
            }
        }
        let mut i: usize = 0;
        while i < anchor
            invariant
                self.wf(),
                n == self.points@.len(),
                i <= anchor < n,
                v@ == self.points@.subrange(anchor as int, n as int) + self.points@.subrange(
                    0,
                    i as int,
                ),
            decreases anchor - i,
        {
            let q = self.points[i];
            v.push(q);
            i = i + 1;
            proof {
                assert(v@ =~= self.points@.subrange(anchor as int, n as int)
                    + self.points@.subrange(0, i as int));
            }
        }
        proof {
            assert(v@ =~= rotate_seq(s, anchor as int));
            assert(all_in_limit(v@));
        }
        let st = lcg_next(seed);
        let span: usize = if num_sites < 2 {
            2
        } else {
            num_sites
        };
        let k0: usize = if span <= 2 {
            2
        } else {
            2 + (st % (span as u64 - 1)) as usize
        };
        let kk: usize = if k0 > n - 2 {
            n - 2
        } else {
            k0
        };
        proof {
            assert(kk as int == frag_count(n as int, num_sites as int, seed));
            assert(2 <= kk <= n - 2);
        }
        let mut res: Vec<Polygon> = Vec::new();
        let mut j: usize = 0;
        while j < kk
            invariant
                self.wf(),
                n == self.points@.len(),
                s == self.points@,
                4 <= n <= POLY_MAX_POINTS,
                2 <= kk <= n - 2,
                anchor < n,
                v@ == rotate_seq(s, anchor as int),
                v@.len() == n,
                all_in_limit(v@),
                j <= kk,
                res@.len() == j,
                forall|t: int|
                    0 <= t < j ==> (#[trigger] res@[t]).wf() && fragment_ok(
                        res@[t],
                        s,
                        anchor as int,
                        n as int,
                        kk as int,
                        t,
                    ),
                total_area2_upto(res@, j as int) == fan_range(
                    v@,
                    1,
                    cut_at(n as int, kk as int, j as int),
                ),
            decreases kk - j,
        {
            proof {
                lemma_cut_bounds(n as int, kk as int, j as int);
                lemma_cut_bounds(n as int, kk as int, j as int + 1);
                lemma_cut_mono(n as int, kk as int, j as int);
            }
            proof {
                assert(0 <= j as int * (n as int - 2) <= 4225 && 0 <= (j as int + 1) * (n as int
                    - 2) <= 4225) by (nonlinear_arith)
                    requires
                        0 <= j as int <= 64,
                        0 <= n as int - 2 <= 64,
                ;
            }
            let c0: usize = 1 + (j * (n - 2)) / kk;
            let c1: usize = 1 + ((j + 1) * (n - 2)) / kk;
            proof {
                assert(c0 as int == cut_at(n as int, kk as int, j as int));
                assert(c1 as int == cut_at(n as int, kk as int, j as int + 1));
            }
            let mut fp: Vec<Point2> = Vec::new();
            let first = v[0];
            fp.push(first);
            let mut t: usize = c0;
            while t <= c1
                invariant
                    v@.len() == n,
                    all_in_limit(v@),
                    1 <= c0 < c1 <= n - 1,
                    c0 <= t <= c1 + 1,
                    fp@ == seq![v@[0]] + v@.subrange(c0 as int, t as int),
                decreases c1 + 1 - t,
            {
                let q = v[t];
                fp.push(q);
                t = t + 1;
                proof {
                    assert(fp@ =~= seq![v@[0]] + v@.subrange(c0 as int, t as int));
                }
            }
            proof {
                assert(fp@ =~= wedge(v@, c0 as int, c1 as int));
                assert(all_in_limit(fp@));
            }
            let frag = Polygon::from_points(fp);
            proof {
                lemma_wedge_area(v@, c0 as int, c1 as int);
                lemma_fan_range_concat(v@, 1, c0 as int, c1 as int);
            }
            let ghost res0 = res@;
            res.push(frag);
            j = j + 1;
            proof {
                lemma_total_area2_push(res0, frag, res0.len() as int);
                assert(total_area2_upto(res@, j as int) == total_area2_upto(res@, j as int - 1)
                    + area2(res@[j as int - 1].points@));
                assert forall|t: int|
                    0 <= t < j implies (#[trigger] res@[t]).wf() && fragment_ok(
                    res@[t],
                    s,
                    anchor as int,
                    n as int,
                    kk as int,
                    t,
                ) by {
                    if t < j - 1 {
                        assert(res@[t] == res0[t]);
                    } else {
                        assert(res@[t] == frag);
                    }
                }
            }
        }
        proof {
            lemma_cut_bounds(n as int, kk as int, kk as int);
            lemma_area_fan(v@);
            lemma_rotate_area(s, anchor as int);
        }
        res
    }
}

/// A floor quotient lies between integer bounds on the fraction.
proof fn lemma_floor_div_bounds(n: int, d: int, lo: int, hi: int)
    requires
        d >= 1,
        lo * d <= n,
        n <= hi * d,
    ensures
        lo <= n / d <= hi,
{
    vstd::arithmetic::div_mod::lemma_fundamental_div_mod(n, d);
    vstd::arithmetic::div_mod::lemma_mod_bound(n, d);
    assert(lo <= n / d <= hi) by (nonlinear_arith)
        requires
            d >= 1,
            lo * d <= n <= hi * d,
            d * (n / d) + (n % d) == n,
            0 <= n % d < d,
    ;
}

} // verus!
