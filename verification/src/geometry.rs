//! Plane geometry on integer points: squared distances, integer square roots,
//! and the foot of a perpendicular on a segment.

use vstd::arithmetic::div_mod::*;
use vstd::arithmetic::mul::*;
use vstd::prelude::*;

verus! {

/// A point of the map, in map units.
#[derive(Clone, Copy, Debug, PartialEq, Eq)]
pub struct Point {
    pub x: i32,
    pub y: i32,
}

/// The square of the distance between two points.
pub open spec fn dist2(a: Point, b: Point) -> int {
    (a.x - b.x) * (a.x - b.x) + (a.y - b.y) * (a.y - b.y)
}

/// Whether `r` is the square root of `n`, rounded down.
pub open spec fn is_floor_sqrt(n: int, r: int) -> bool {
    0 <= r && r * r <= n < (r + 1) * (r + 1)
}

/// The square root of `n`, rounded down.
pub open spec fn floor_sqrt(n: int) -> int {
    choose|r: int| is_floor_sqrt(n, r)
}

/// The distance between two points, rounded down to whole units.
pub open spec fn dist(a: Point, b: Point) -> int {
    floor_sqrt(dist2(a, b))
}

/// `m * t / d`, rounded down: the part of `m` that `t` is of `d`.
pub open spec fn part_of(m: int, t: int, d: int) -> int {
    if d > 0 {
        m * t / d
    } else {
        0
    }
}

/// The place between `a` and `b` that lies `t` parts of `d` from `a`,
/// rounded towards `a`.
pub open spec fn toward(a: int, b: int, t: int, d: int) -> int {
    if b >= a {
        a + part_of(b - a, t, d)
    } else {
        a - part_of(a - b, t, d)
    }
}

/// The scalar product of `p - a` and `b - a`.
pub open spec fn along(p: Point, a: Point, b: Point) -> int {
    (p.x - a.x) * (b.x - a.x) + (p.y - a.y) * (b.y - a.y)
}

/// The point of the segment from `a` to `b` that is nearest to `p`: the foot
/// of the perpendicular where it falls on the segment, rounded towards `a`,
/// and else the nearer end.
pub open spec fn foot(p: Point, a: Point, b: Point) -> Point {
    let t = along(p, a, b);
    let d = dist2(a, b);
    if t <= 0 {
        a
    } else if t >= d {
        b
    } else {
        Point {
            x: toward(a.x as int, b.x as int, t, d) as i32,
            y: toward(a.y as int, b.y as int, t, d) as i32,
        }
    }
}

/// Whether `p` lies on the segment from `a` to `b`.
pub open spec fn on_segment(p: Point, a: Point, b: Point) -> bool {
    &&& (p.x - a.x) * (b.y - a.y) == (p.y - a.y) * (b.x - a.x)
    &&& 0 <= along(p, a, b) <= dist2(a, b)
    &&& a == b ==> p == a
}

/// Only one number is the rounded-down square root of `n`.
pub proof fn lemma_floor_sqrt_unique(n: int, r1: int, r2: int)
    requires
        is_floor_sqrt(n, r1),
        is_floor_sqrt(n, r2),
    ensures
        r1 == r2,
{
    if r1 < r2 {
        assert((r1 + 1) * (r1 + 1) <= r2 * r2) by (nonlinear_arith)
            requires
                0 <= r1,
                r1 + 1 <= r2,
        ;
    } else if r2 < r1 {
        assert((r2 + 1) * (r2 + 1) <= r1 * r1) by (nonlinear_arith)
            requires
                0 <= r2,
                r2 + 1 <= r1,
        ;
    }
}

/// A part of `m` lies between nothing and all of `m`.
pub proof fn lemma_part_of_bounds(m: int, t: int, d: int)
    requires
        0 <= m,
        0 <= t <= d,
    ensures
        0 <= part_of(m, t, d) <= m,
        t == d && d > 0 ==> part_of(m, t, d) == m,
        t == 0 ==> part_of(m, t, d) == 0,
{
    if d > 0 {
        assert(0 <= m * t <= m * d) by (nonlinear_arith)
            requires
                0 <= m,
                0 <= t <= d,
        ;
        lemma_div_is_ordered(m * t, m * d, d);
        lemma_div_by_multiple(m, d);
        lemma_div_pos_is_pos(m * t, d);
        lemma_mul_is_commutative(m, d);
        if t == 0 {
            lemma_mul_basics(m);
        }
    }
}

/// The square root of `n`, rounded down.
pub fn integer_sqrt(n: u128) -> (r: u64)
    ensures
        is_floor_sqrt(n as int, r as int),
        r == floor_sqrt(n as int),
{
    let mut lo: u128 = 0;
    let mut hi: u128 = 0x1_0000_0000_0000_0000;
    assert(n < 0x1_0000_0000_0000_0000 * 0x1_0000_0000_0000_0000) by (nonlinear_arith)
        requires
            n <= 0xffff_ffff_ffff_ffff_ffff_ffff_ffff_ffff,
    ;
    while hi - lo > 1
        invariant
            lo < hi <= 0x1_0000_0000_0000_0000,
            lo * lo <= n < hi * hi,
        decreases hi - lo,
    {
        let mid: u128 = lo + (hi - lo) / 2;
        assert(mid * mid <= 0xffff_ffff_ffff_ffff * 0xffff_ffff_ffff_ffff) by (nonlinear_arith)
            requires
                0 <= mid <= 0xffff_ffff_ffff_ffff,
        ;
        if mid * mid <= n {
            lo = mid;
        } else {
            hi = mid;
        }
    }
    assert(hi == lo + 1);
    proof {
        let w = floor_sqrt(n as int);
        assert(is_floor_sqrt(n as int, lo as int));
        lemma_floor_sqrt_unique(n as int, w, lo as int);
    }
    lo as u64
}

/// The square of the distance between two points.
pub fn distance_squared(a: Point, b: Point) -> (r: u128)
    ensures
        r == dist2(a, b),
        r <= 0x2_0000_0000_0000_0000,
{
    let dx: i128 = a.x as i128 - b.x as i128;
    let dy: i128 = a.y as i128 - b.y as i128;
    assert(0 <= dx * dx <= 0x1_0000_0000_0000_0000) by (nonlinear_arith)
        requires
            -0x1_0000_0000 <= dx <= 0x1_0000_0000,
    ;
    assert(0 <= dy * dy <= 0x1_0000_0000_0000_0000) by (nonlinear_arith)
        requires
            -0x1_0000_0000 <= dy <= 0x1_0000_0000,
    ;
    (dx * dx + dy * dy) as u128
}

/// The distance between two points, rounded down to whole units.
pub fn distance(a: Point, b: Point) -> (r: u64)
    ensures
        r == dist(a, b),
        r <= 0x2_0000_0000,
{
    let r = integer_sqrt(distance_squared(a, b));
    assert(r <= 0x2_0000_0000) by (nonlinear_arith)
        requires
            r * r <= 0x2_0000_0000_0000_0000,
            0 <= r,
    ;
    r
}

/// The place between `a` and `b` that lies `t` parts of `d` from `a`.
fn step_toward(a: i32, b: i32, t: u128, d: u128) -> (r: i32)
    requires
        0 <= t <= d,
        0 < d <= 0x2_0000_0000_0000_0000,
    ensures
        r == toward(a as int, b as int, t as int, d as int),
        a <= r <= b || b <= r <= a,
{
    if b >= a {
        let m: u128 = (b as i64 - a as i64) as u128;
        proof {
            lemma_part_of_bounds(m as int, t as int, d as int);
            assert(m * t <= 0x1_0000_0000 * 0x2_0000_0000_0000_0000) by (nonlinear_arith)
                requires
                    0 <= m <= 0x1_0000_0000,
                    0 <= t <= 0x2_0000_0000_0000_0000,
            ;
        }
        let q: u128 = m * t / d;
        (a as i64 + q as i64) as i32
    } else {
        let m: u128 = (a as i64 - b as i64) as u128;
        proof {
            lemma_part_of_bounds(m as int, t as int, d as int);
            assert(m * t <= 0x1_0000_0000 * 0x2_0000_0000_0000_0000) by (nonlinear_arith)
                requires
                    0 <= m <= 0x1_0000_0000,
                    0 <= t <= 0x2_0000_0000_0000_0000,
            ;
        }
        let q: u128 = m * t / d;
        (a as i64 - q as i64) as i32
    }
}

/// The point of the segment from `a` to `b` that is nearest to `p`.
pub fn nearest_on_segment(p: Point, a: Point, b: Point) -> (r: Point)
    ensures
        r == foot(p, a, b),
        a.x <= r.x <= b.x || b.x <= r.x <= a.x,
        a.y <= r.y <= b.y || b.y <= r.y <= a.y,
{
    let dx: i128 = b.x as i128 - a.x as i128;
    let dy: i128 = b.y as i128 - a.y as i128;
    let px: i128 = p.x as i128 - a.x as i128;
    let py: i128 = p.y as i128 - a.y as i128;
    assert(-0x1_0000_0000_0000_0000 <= px * dx <= 0x1_0000_0000_0000_0000) by (nonlinear_arith)
        requires
            -0x1_0000_0000 <= px <= 0x1_0000_0000,
            -0x1_0000_0000 <= dx <= 0x1_0000_0000,
    ;
    assert(-0x1_0000_0000_0000_0000 <= py * dy <= 0x1_0000_0000_0000_0000) by (nonlinear_arith)
        requires
            -0x1_0000_0000 <= py <= 0x1_0000_0000,
            -0x1_0000_0000 <= dy <= 0x1_0000_0000,
    ;
    let t: i128 = px * dx + py * dy;
    let d: u128 = distance_squared(a, b);
    assert(d == dist2(a, b));
    assert(dist2(a, b) == dx * dx + dy * dy) by (nonlinear_arith)
        requires
            dx == b.x - a.x,
            dy == b.y - a.y,
            dist2(a, b) == (a.x - b.x) * (a.x - b.x) + (a.y - b.y) * (a.y - b.y),
    ;
    if t <= 0 {
        a
    } else if t as u128 >= d {
        b
    } else {
        Point { x: step_toward(a.x, b.x, t as u128, d), y: step_toward(a.y, b.y, t as u128, d) }
    }
}

/// Where `b * t == p * d`, the part of `|b|` that `t` is of `d` is `|p|`.
proof fn lemma_part_on_segment(p: int, b: int, t: int, d: int)
    requires
        b * t == p * d,
        0 < t < d,
    ensures
        b >= 0 ==> part_of(b, t, d) == p,
        b < 0 ==> part_of(0 - b, t, d) == 0 - p,
{
    if b >= 0 {
        assert(p >= 0) by (nonlinear_arith)
            requires
                b * t == p * d,
                b >= 0,
                t > 0,
                d > 0,
        ;
        lemma_div_by_multiple(p, d);
    } else {
        assert(p <= 0) by (nonlinear_arith)
            requires
                b * t == p * d,
                b < 0,
                t > 0,
                d > 0,
        ;
        assert((0 - b) * t == (0 - p) * d) by (nonlinear_arith)
            requires
                b * t == p * d,
        ;
        lemma_div_by_multiple(0 - p, d);
    }
}

/// A point that lies on a segment is its own nearest point there.
pub proof fn lemma_foot_of_point_on_segment(p: Point, a: Point, b: Point)
    requires
        on_segment(p, a, b),
    ensures
        foot(p, a, b) == p,
        dist2(p, foot(p, a, b)) == 0,
{
    let t = along(p, a, b);
    let d = dist2(a, b);
    let px = p.x - a.x;
    let py = p.y - a.y;
    let bx = b.x - a.x;
    let by = b.y - a.y;
    assert(d == bx * bx + by * by) by (nonlinear_arith)
        requires
            bx == b.x - a.x,
            by == b.y - a.y,
            d == (a.x - b.x) * (a.x - b.x) + (a.y - b.y) * (a.y - b.y),
    ;
    assert(bx * t == px * d) by (nonlinear_arith)
        requires
            t == px * bx + py * by,
            d == bx * bx + by * by,
            px * by == py * bx,
    ;
    assert(by * t == py * d) by (nonlinear_arith)
        requires
            t == px * bx + py * by,
            d == bx * bx + by * by,
            px * by == py * bx,
    ;
    if t <= 0 {
        if d == 0 {
            assert(bx == 0 && by == 0) by (nonlinear_arith)
                requires
                    bx * bx + by * by == 0,
            ;
            assert(a == b);
        } else {
            assert(px == 0 && py == 0) by (nonlinear_arith)
                requires
                    t == 0,
                    d > 0,
                    bx * t == px * d,
                    by * t == py * d,
            ;
        }
    } else if t >= d {
        assert(px == bx && py == by) by (nonlinear_arith)
            requires
                t == d,
                d > 0,
                bx * t == px * d,
                by * t == py * d,
        ;
    } else {
        lemma_part_on_segment(px, bx, t, d);
        lemma_part_on_segment(py, by, t, d);
    }
}

} // verus!
