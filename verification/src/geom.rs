//! Fixed-point 3D vector arithmetic: points, squared distances, integer
//! square roots, rescaling along a direction, and the force-limiting
//! primitive shared by every steering behaviour.

use vstd::prelude::*;

verus! {

/// Every coordinate the simulation stores is kept within this bound so that
/// squared distances of differences of two such values always fit in `i64`.
pub const COORD_LIMIT: i64 = 0x2000_0000;

/// A 3D point (or vector) with fixed-point integer coordinates.
#[derive(Clone, Copy, Debug, PartialEq, Eq, Structural)]
pub struct Point {
    pub x: i64,
    pub y: i64,
    pub z: i64,
}

/// Absolute value of a mathematical integer.
pub open spec fn abs(a: int) -> int {
    if a >= 0 { a } else { -a }
}

/// All three coordinates lie within `[-b, b]`.
pub open spec fn fits(p: Point, b: int) -> bool {
    abs(p.x as int) <= b && abs(p.y as int) <= b && abs(p.z as int) <= b
}

/// Squared Euclidean norm.
pub open spec fn norm2(p: Point) -> int {
    p.x * p.x + p.y * p.y + p.z * p.z
}

/// Squared Euclidean distance between two points.
pub open spec fn dist2(a: Point, b: Point) -> int {
    (a.x - b.x) * (a.x - b.x) + (a.y - b.y) * (a.y - b.y) + (a.z - b.z) * (a.z - b.z)
}

impl Point {
    /// The origin / zero vector.
    pub fn zero() -> (r: Point)
        ensures
            r == (Point { x: 0, y: 0, z: 0 }),
    {
        Point { x: 0, y: 0, z: 0 }
    }

    pub open spec fn spec_is_zero(self) -> bool {
        self.x == 0 && self.y == 0 && self.z == 0
    }

    pub fn is_zero(&self) -> (r: bool)
        ensures
            r == self.spec_is_zero(),
    {
        self.x == 0 && self.y == 0 && self.z == 0
    }

    /// Component-wise sum.
    pub fn add(self, o: Point) -> (r: Point)
        requires
            abs(self.x + o.x) <= i64::MAX,
            abs(self.y + o.y) <= i64::MAX,
            abs(self.z + o.z) <= i64::MAX,
        ensures
            r.x == self.x + o.x,
            r.y == self.y + o.y,
            r.z == self.z + o.z,
    {
        Point { x: self.x + o.x, y: self.y + o.y, z: self.z + o.z }
    }

    /// Component-wise difference.
    pub fn sub(self, o: Point) -> (r: Point)
        requires
            abs(self.x - o.x) <= i64::MAX,
            abs(self.y - o.y) <= i64::MAX,
            abs(self.z - o.z) <= i64::MAX,
        ensures
            r.x == self.x - o.x,
            r.y == self.y - o.y,
            r.z == self.z - o.z,
    {
        Point { x: self.x - o.x, y: self.y - o.y, z: self.z - o.z }
    }
}

/// Squared distance between two bounded points, computed exactly.
pub fn dist_sq(a: &Point, b: &Point) -> (r: i64)
    requires
        fits(*a, COORD_LIMIT as int),
        fits(*b, COORD_LIMIT as int),
    ensures
        r == dist2(*a, *b),
        0 <= r <= 0x3000_0000_0000_0000,
{
    let dx = a.x - b.x;
    let dy = a.y - b.y;
    let dz = a.z - b.z;
    assert(0 <= dx * dx <= 0x1000_0000_0000_0000) by (nonlinear_arith)
        requires -0x4000_0000 <= dx <= 0x4000_0000;
    assert(0 <= dy * dy <= 0x1000_0000_0000_0000) by (nonlinear_arith)
        requires -0x4000_0000 <= dy <= 0x4000_0000;
    assert(0 <= dz * dz <= 0x1000_0000_0000_0000) by (nonlinear_arith)
        requires -0x4000_0000 <= dz <= 0x4000_0000;
    dx * dx + dy * dy + dz * dz
}

/// Squared norm of a vector whose components may be as large as twice the
/// coordinate bound (a difference of two stored values).
pub fn norm_sq(v: &Point) -> (r: i64)
    requires
        fits(*v, 2 * COORD_LIMIT as int),
    ensures
        r == norm2(*v),
        0 <= r <= 0x3000_0000_0000_0000,
{
    let vx = v.x;
    let vy = v.y;
    let vz = v.z;
    assert(0 <= vx * vx <= 0x1000_0000_0000_0000) by (nonlinear_arith)
        requires -0x4000_0000 <= vx <= 0x4000_0000;
    assert(0 <= vy * vy <= 0x1000_0000_0000_0000) by (nonlinear_arith)
        requires -0x4000_0000 <= vy <= 0x4000_0000;
    assert(0 <= vz * vz <= 0x1000_0000_0000_0000) by (nonlinear_arith)
        requires -0x4000_0000 <= vz <= 0x4000_0000;
    vx * vx + vy * vy + vz * vz
}

/// Squared distance does not depend on the order of its endpoints.
pub proof fn lemma_dist2_symmetric(a: Point, b: Point)
    by (nonlinear_arith)
    ensures
        dist2(a, b) == dist2(b, a),
{
}

/// For `|a| <= b`, the square `a * a` is at most `b * b` and non-negative.
pub proof fn lemma_sq_bound(a: int, b: int)
    by (nonlinear_arith)
    requires
        abs(a) <= b,
    ensures
        0 <= a * a <= b * b,
{
}

/// Division of `a` by positive `d`, rounded toward zero, as Rust's integer
/// division behaves on machine integers.
pub open spec fn tdiv(a: int, d: int) -> int {
    if a >= 0 { a / d } else { -((-a) / d) }
}

/// `r` is the square root of `s`, rounded up to the next integer.
pub open spec fn is_sqrt_up(s: int, r: int) -> bool {
    r >= 0 && r * r >= s && (r >= 1 ==> (r - 1) * (r - 1) < s)
}

/// `r` is the square root of `s`, rounded down.
pub open spec fn is_sqrt_down(s: int, r: int) -> bool {
    r >= 0 && r * r <= s && (r + 1) * (r + 1) > s
}

/// The rounded-up square root, as a mathematical function.
pub open spec fn sqrt_up(s: int) -> int {
    choose|r: int| is_sqrt_up(s, r)
}

/// The rounded-down square root, as a mathematical function.
pub open spec fn sqrt_down(s: int) -> int {
    choose|r: int| is_sqrt_down(s, r)
}

/// Every non-negative integer has a rounded-up square root.
pub proof fn lemma_sqrt_up_exists(s: int)
    requires
        0 <= s,
    ensures
        is_sqrt_up(s, sqrt_up(s)),
    decreases s,
{
    if s == 0 {
        assert(is_sqrt_up(0, 0));
    } else {
        lemma_sqrt_up_exists(s - 1);
        let r0 = sqrt_up(s - 1);
        if r0 * r0 >= s {
            assert(is_sqrt_up(s, r0));
        } else {
            assert((r0 + 1) * (r0 + 1) >= s && r0 * r0 < s) by (nonlinear_arith)
                requires r0 * r0 < s, r0 * r0 >= s - 1, r0 >= 0;
            assert(is_sqrt_up(s, r0 + 1));
        }
    }
    assert(exists|r: int| is_sqrt_up(s, r));
}

/// Every non-negative integer has a rounded-down square root.
pub proof fn lemma_sqrt_down_exists(s: int)
    requires
        0 <= s,
    ensures
        is_sqrt_down(s, sqrt_down(s)),
{
    lemma_sqrt_up_exists(s);
    let u = sqrt_up(s);
    if u * u == s {
        assert((u + 1) * (u + 1) > s) by (nonlinear_arith)
            requires u >= 0, u * u == s;
        assert(is_sqrt_down(s, u));
    } else {
        assert(u >= 1) by (nonlinear_arith)
            requires u >= 0, u * u >= s, u * u != s, s >= 0;
        assert((u - 1) * (u - 1) <= s) by (nonlinear_arith)
            requires u >= 1, (u - 1) * (u - 1) < s;
        assert(is_sqrt_down(s, u - 1));
    }
    assert(exists|r: int| is_sqrt_down(s, r));
}

/// The rounded-down square root is unique.
pub proof fn lemma_sqrt_down_unique(s: int, r1: int, r2: int)
    by (nonlinear_arith)
    requires
        is_sqrt_down(s, r1),
        is_sqrt_down(s, r2),
    ensures
        r1 == r2,
{
    if r1 < r2 {
        assert((r1 + 1) * (r1 + 1) <= r2 * r2);
    }
    if r2 < r1 {
        assert((r2 + 1) * (r2 + 1) <= r1 * r1);
    }
}

/// The rounded-up square root is unique.
pub proof fn lemma_sqrt_up_unique(s: int, r1: int, r2: int)
    by (nonlinear_arith)
    requires
        is_sqrt_up(s, r1),
        is_sqrt_up(s, r2),
    ensures
        r1 == r2,
{
    if r1 < r2 {
        assert((r2 - 1) * (r2 - 1) >= r1 * r1);
    }
    if r2 < r1 {
        assert((r1 - 1) * (r1 - 1) >= r2 * r2);
    }
}

/// The components of a point as a triple of unbounded integers, the form
/// in which every vector computation is specified.
pub open spec fn v3(p: Point) -> (int, int, int) {
    (p.x as int, p.y as int, p.z as int)
}

pub open spec fn addt(a: (int, int, int), b: (int, int, int)) -> (int, int, int) {
    (a.0 + b.0, a.1 + b.1, a.2 + b.2)
}

pub open spec fn subt(a: (int, int, int), b: (int, int, int)) -> (int, int, int) {
    (a.0 - b.0, a.1 - b.1, a.2 - b.2)
}

pub open spec fn norm2t(v: (int, int, int)) -> int {
    v.0 * v.0 + v.1 * v.1 + v.2 * v.2
}

/// Each component multiplied by `num / den`, rounded toward zero.
pub open spec fn scalet(v: (int, int, int), num: int, den: int) -> (int, int, int) {
    (tdiv(v.0 * num, den), tdiv(v.1 * num, den), tdiv(v.2 * num, den))
}

/// Each component divided by `den`, rounded toward zero.
pub open spec fn divt(v: (int, int, int), den: int) -> (int, int, int) {
    (tdiv(v.0, den), tdiv(v.1, den), tdiv(v.2, den))
}

/// The vector rescaled along its own direction to magnitude at most
/// `target`; zero stays zero.
pub open spec fn normalize_t(v: (int, int, int), target: int) -> (int, int, int) {
    if v == (0int, 0int, 0int) {
        (0int, 0int, 0int)
    } else {
        scalet(v, target, sqrt_up(norm2t(v)))
    }
}

/// The force-limiting rule: a vector above magnitude `max` is rescaled
/// onto the sphere of radius `max`, anything else passes unchanged.
pub open spec fn limit_t(v: (int, int, int), max: int) -> (int, int, int) {
    if norm2t(v) <= max * max {
        v
    } else {
        scalet(v, max, sqrt_up(norm2t(v)))
    }
}

/// Each component clamped into `[-b, b]`.
pub open spec fn clampt(v: (int, int, int), b: int) -> (int, int, int) {
    (clamp(v.0, -b, b), clamp(v.1, -b, b), clamp(v.2, -b, b))
}

/// Integer square root of `s`, rounded up.
pub fn isqrt_up(s: i64) -> (r: i64)
    requires
        0 <= s <= 0x4000_0000_0000_0000,
    ensures
        is_sqrt_up(s as int, r as int),
        r == sqrt_up(s as int),
        0 <= r <= 0x8000_0000,
{
    proof {
        lemma_sqrt_up_exists(s as int);
    }
    let su: u64 = s as u64;
    let mut lo: u64 = 0;
    let mut hi: u64 = 0x8000_0000;
    assert(0x8000_0000u64 * 0x8000_0000u64 >= su) by (nonlinear_arith)
        requires su <= 0x4000_0000_0000_0000u64;
    while lo < hi
        invariant
            lo <= hi <= 0x8000_0000,
            hi * hi >= su,
            lo >= 1 ==> (lo - 1) * (lo - 1) < su,
            su == s as int,
        decreases hi - lo,
    {
        let mid = lo + (hi - lo) / 2;
        assert(mid * mid <= 0x8000_0000u64 * 0x8000_0000u64) by (nonlinear_arith)
            requires mid <= 0x8000_0000u64;
        if mid * mid >= su {
            hi = mid;
        } else {
            lo = mid + 1;
        }
    }
    proof {
        lemma_sqrt_up_unique(s as int, lo as int, sqrt_up(s as int));
    }
    lo as i64
}

/// Integer square root of `s`, rounded down.
pub fn isqrt_down(s: i64) -> (r: i64)
    requires
        0 <= s <= 0x4000_0000_0000_0000,
    ensures
        0 <= r <= 0x8000_0000,
        r * r <= s,
        (r + 1) * (r + 1) > s,
        r == sqrt_down(s as int),
{
    proof {
        lemma_sqrt_down_exists(s as int);
    }
    let su: u64 = s as u64;
    let mut lo: u64 = 0;
    let mut hi: u64 = 0x8000_0000;
    assert((0x8000_0000u64 + 1) * (0x8000_0000u64 + 1) > su) by (nonlinear_arith)
        requires su <= 0x4000_0000_0000_0000u64;
    while lo < hi
        invariant
            lo <= hi <= 0x8000_0000,
            lo * lo <= su,
            (hi + 1) * (hi + 1) > su,
            su == s as int,
        decreases hi - lo,
    {
        let mid = lo + (hi - lo + 1) / 2;
        assert(mid * mid <= 0x8000_0000u64 * 0x8000_0000u64) by (nonlinear_arith)
            requires mid <= 0x8000_0000u64;
        if mid * mid <= su {
            lo = mid;
        } else {
            hi = mid - 1;
        }
    }
    proof {
        lemma_sqrt_down_unique(s as int, lo as int, sqrt_down(s as int));
    }
    lo as i64
}

/// One scaled value: `a * num / den` with division rounded toward zero.
pub fn scale_ratio(a: i64, num: i64, den: i64) -> (r: i64)
    requires
        abs(a as int) <= 2 * COORD_LIMIT as int,
        0 <= num <= COORD_LIMIT,
        1 <= den,
    ensures
        r == tdiv(a * num, den as int),
        a >= 0 ==> r >= 0,
        a <= 0 ==> r <= 0,
        abs(r as int) * den <= abs(a as int) * num,
{
    proof {
        let aa = abs(a as int);
        assert(aa * num <= (2 * COORD_LIMIT as int) * (COORD_LIMIT as int)) by (nonlinear_arith)
            requires 0 <= aa <= 2 * COORD_LIMIT as int, 0 <= num <= COORD_LIMIT as int;
    }
    if a >= 0 {
        let prod: u64 = (a as u64) * (num as u64);
        let q: u64 = prod / (den as u64);
        proof {
            assert(a * num >= 0 && (a == 0 ==> a * num == 0)) by (nonlinear_arith)
                requires a >= 0, num >= 0;
            vstd::arithmetic::div_mod::lemma_div_of0(den as int);
            vstd::arithmetic::div_mod::lemma_div_pos_is_pos(prod as int, den as int);
            vstd::arithmetic::div_mod::lemma_remainder_lower(prod as int, den as int);
            vstd::arithmetic::div_mod::lemma_div_nonincreasing(prod as int, den as int);
        }
        q as i64
    } else {
        let na = -a;
        let prod: u64 = (na as u64) * (num as u64);
        let q: u64 = prod / (den as u64);
        proof {
            assert(a * num <= 0 && -(a * num) == na * num) by (nonlinear_arith)
                requires a < 0, num >= 0, na == -a;
            vstd::arithmetic::div_mod::lemma_div_of0(den as int);
            vstd::arithmetic::div_mod::lemma_div_pos_is_pos(prod as int, den as int);
            vstd::arithmetic::div_mod::lemma_remainder_lower(prod as int, den as int);
            vstd::arithmetic::div_mod::lemma_div_nonincreasing(prod as int, den as int);
        }
        -(q as i64)
    }
}

/// Each component scaled by `num / den`, rounded toward zero.
pub fn scale_div(v: &Point, num: i64, den: i64) -> (r: Point)
    requires
        fits(*v, 2 * COORD_LIMIT as int),
        0 <= num <= COORD_LIMIT,
        1 <= den,
    ensures
        r.x == tdiv(v.x * num, den as int),
        r.y == tdiv(v.y * num, den as int),
        r.z == tdiv(v.z * num, den as int),
        abs(r.x as int) * den <= abs(v.x as int) * num,
        abs(r.y as int) * den <= abs(v.y as int) * num,
        abs(r.z as int) * den <= abs(v.z as int) * num,
        v.x >= 0 ==> r.x >= 0,
        v.x <= 0 ==> r.x <= 0,
        v.y >= 0 ==> r.y >= 0,
        v.y <= 0 ==> r.y <= 0,
        v.z >= 0 ==> r.z >= 0,
        v.z <= 0 ==> r.z <= 0,
{
    Point {
        x: scale_ratio(v.x, num, den),
        y: scale_ratio(v.y, num, den),
        z: scale_ratio(v.z, num, den),
    }
}

/// Each component divided by a positive scalar, rounded toward zero: the
/// averaging step of the flocking sums.
pub fn div_scalar(v: &Point, den: i64) -> (r: Point)
    requires
        1 <= den,
        v.x > i64::MIN,
        v.y > i64::MIN,
        v.z > i64::MIN,
    ensures
        v3(r) == divt(v3(*v), den as int),
        abs(r.x as int) * den <= abs(v.x as int),
        abs(r.y as int) * den <= abs(v.y as int),
        abs(r.z as int) * den <= abs(v.z as int),
{
    Point { x: div_scalar1(v.x, den), y: div_scalar1(v.y, den), z: div_scalar1(v.z, den) }
}

/// One component of `div_scalar`.
fn div_scalar1(a: i64, den: i64) -> (r: i64)
    requires
        1 <= den,
        a > i64::MIN,
    ensures
        r == tdiv(a as int, den as int),
        abs(r as int) * den <= abs(a as int),
{
    if a >= 0 {
        let q: u64 = (a as u64) / (den as u64);
        proof {
            vstd::arithmetic::div_mod::lemma_div_pos_is_pos(a as int, den as int);
            vstd::arithmetic::div_mod::lemma_remainder_lower(a as int, den as int);
            vstd::arithmetic::div_mod::lemma_div_nonincreasing(a as int, den as int);
        }
        q as i64
    } else {
        let na = -a;
        let q: u64 = (na as u64) / (den as u64);
        proof {
            vstd::arithmetic::div_mod::lemma_div_pos_is_pos(na as int, den as int);
            vstd::arithmetic::div_mod::lemma_remainder_lower(na as int, den as int);
            vstd::arithmetic::div_mod::lemma_div_nonincreasing(na as int, den as int);
        }
        -(q as i64)
    }
}

/// Scaling `a` by `t / m` and squaring keeps `q * q * m * m` below
/// `a * a * t * t`: the workhorse behind every magnitude bound.
proof fn lemma_tdiv_sq(a: int, t: int, m: int)
    requires
        t >= 0,
        m >= 1,
    ensures
        tdiv(a * t, m) * tdiv(a * t, m) * (m * m) <= (a * a) * (t * t),
{
    let p = a * t;
    let u = if p >= 0 { p } else { -p };
    let q = u / m;
    vstd::arithmetic::div_mod::lemma_div_pos_is_pos(u, m);
    vstd::arithmetic::div_mod::lemma_remainder_lower(u, m);
    assert(0 <= q * m <= u);
    assert(tdiv(p, m) == q || tdiv(p, m) == -q);
    assert((q * q) * (m * m) <= u * u) by (nonlinear_arith)
        requires 0 <= q * m <= u;
    assert(u * u == p * p) by (nonlinear_arith)
        requires u == p || u == -p;
    assert(tdiv(p, m) * tdiv(p, m) == q * q) by (nonlinear_arith)
        requires tdiv(p, m) == q || tdiv(p, m) == -q;
    assert(p * p == (a * a) * (t * t)) by (nonlinear_arith)
        requires p == a * t;
}

/// Scaling a vector by `t / m`, where `m * m` bounds the squared norm,
/// yields a vector whose squared norm is at most `t * t`.
pub proof fn lemma_scaled_norm(x: int, y: int, z: int, t: int, m: int)
    requires
        t >= 0,
        m >= 1,
        x * x + y * y + z * z <= m * m,
    ensures
        tdiv(x * t, m) * tdiv(x * t, m) + tdiv(y * t, m) * tdiv(y * t, m) + tdiv(z * t, m)
            * tdiv(z * t, m) <= t * t,
{
    let qx = tdiv(x * t, m);
    let qy = tdiv(y * t, m);
    let qz = tdiv(z * t, m);
    lemma_tdiv_sq(x, t, m);
    lemma_tdiv_sq(y, t, m);
    lemma_tdiv_sq(z, t, m);
    assert((qx * qx + qy * qy + qz * qz) * (m * m) <= (x * x + y * y + z * z) * (t * t))
        by (nonlinear_arith)
        requires
            qx * qx * (m * m) <= (x * x) * (t * t),
            qy * qy * (m * m) <= (y * y) * (t * t),
            qz * qz * (m * m) <= (z * z) * (t * t);
    assert((x * x + y * y + z * z) * (t * t) <= (m * m) * (t * t)) by (nonlinear_arith)
        requires x * x + y * y + z * z <= m * m, t * t >= 0;
    assert(qx * qx + qy * qy + qz * qz <= t * t) by (nonlinear_arith)
        requires
            (qx * qx + qy * qy + qz * qz) * (m * m) <= (m * m) * (t * t),
            m >= 1;
}

/// If a square is bounded by `b * b` with `b >= 0`, the root is within `b`.
pub proof fn lemma_sq_le(a: int, b: int)
    by (nonlinear_arith)
    requires
        a * a <= b * b,
        b >= 0,
    ensures
        abs(a) <= b,
{
}

/// Squares are never negative.
pub proof fn lemma_sq_nonneg(a: int)
    by (nonlinear_arith)
    ensures
        a * a >= 0,
{
}

/// A vector with some non-zero component has a squared norm of at least 1.
pub proof fn lemma_nonzero_norm(x: int, y: int, z: int)
    by (nonlinear_arith)
    requires
        x != 0 || y != 0 || z != 0,
    ensures
        x * x + y * y + z * z >= 1,
{
}

/// Rescale `v` so that it keeps its direction but its magnitude becomes at
/// most `target`; the zero vector, which has no direction, stays zero.
pub fn normalize_to(v: &Point, target: i64) -> (r: Point)
    requires
        fits(*v, 2 * COORD_LIMIT as int),
        0 <= target <= COORD_LIMIT,
    ensures
        v3(r) == normalize_t(v3(*v), target as int),
        v.spec_is_zero() ==> r.spec_is_zero(),
        norm2(r) <= target * target,
        fits(r, target as int),
        v.x >= 0 ==> r.x >= 0,
        v.x <= 0 ==> r.x <= 0,
        v.y >= 0 ==> r.y >= 0,
        v.y <= 0 ==> r.y <= 0,
        v.z >= 0 ==> r.z >= 0,
        v.z <= 0 ==> r.z <= 0,
{
    if v.is_zero() {
        let r = Point::zero();
        assert(norm2(r) <= target * target) by (nonlinear_arith)
            requires norm2(r) == 0, target >= 0;
        r
    } else {
        let s = norm_sq(v);
        proof {
            lemma_nonzero_norm(v.x as int, v.y as int, v.z as int);
        }
        let m = isqrt_up(s);
        proof {
            assert(m >= 1) by (nonlinear_arith)
                requires m >= 0, m * m >= s, s >= 1;
        }
        let r = scale_div(v, target, m);
        proof {
            lemma_scaled_norm(v.x as int, v.y as int, v.z as int, target as int, m as int);
            lemma_sq_nonneg(r.x as int);
            lemma_sq_nonneg(r.y as int);
            lemma_sq_nonneg(r.z as int);
            lemma_sq_le(r.x as int, target as int);
            lemma_sq_le(r.y as int, target as int);
            lemma_sq_le(r.z as int, target as int);
            assert(norm2t(v3(*v)) == norm2(*v));
            assert(v3(r) == normalize_t(v3(*v), target as int));
        }
        r
    }
}

/// Clamp a scalar into `[lo, hi]`.
pub open spec fn clamp(a: int, lo: int, hi: int) -> int {
    if a < lo { lo } else if a > hi { hi } else { a }
}

/// Clamp each component of `v` into `[-bound, bound]`.
pub fn clamp_box(v: &Point, bound: i64) -> (r: Point)
    requires
        0 <= bound,
    ensures
        v3(r) == clampt(v3(*v), bound as int),
        r.x == clamp(v.x as int, -bound as int, bound as int),
        r.y == clamp(v.y as int, -bound as int, bound as int),
        r.z == clamp(v.z as int, -bound as int, bound as int),
        fits(r, bound as int),
{
    Point {
        x: if v.x < -bound { -bound } else if v.x > bound { bound } else { v.x },
        y: if v.y < -bound { -bound } else if v.y > bound { bound } else { v.y },
        z: if v.z < -bound { -bound } else if v.z > bound { bound } else { v.z },
    }
}

/// Cap a force vector at magnitude `max`: a vector whose squared magnitude
/// exceeds `max * max` is rescaled onto (or just inside) the sphere of radius
/// `max`; any other vector passes through unchanged.
pub fn limit(data: &mut Point, max: i64)
    requires
        fits(*old(data), 2 * COORD_LIMIT as int),
        0 <= max <= COORD_LIMIT,
    ensures
        v3(*final(data)) == limit_t(v3(*old(data)), max as int),
        norm2(*old(data)) <= max * max ==> *final(data) == *old(data),
        norm2(*final(data)) <= max * max,
        fits(*final(data), max as int),
        old(data).x >= 0 ==> final(data).x >= 0,
        old(data).x <= 0 ==> final(data).x <= 0,
        old(data).y >= 0 ==> final(data).y >= 0,
        old(data).y <= 0 ==> final(data).y <= 0,
        old(data).z >= 0 ==> final(data).z >= 0,
        old(data).z <= 0 ==> final(data).z <= 0,
{
    let s = norm_sq(data);
    proof {
        lemma_sq_bound(max as int, COORD_LIMIT as int);
    }
    if s > max * max {
        let m = isqrt_up(s);
        proof {
            assert(m >= 1) by (nonlinear_arith)
                requires m >= 0, m * m >= s, s >= 1;
        }
        let scaled = scale_div(data, max, m);
        proof {
            lemma_scaled_norm(data.x as int, data.y as int, data.z as int, max as int, m as int);
            lemma_sq_nonneg(scaled.x as int);
            lemma_sq_nonneg(scaled.y as int);
            lemma_sq_nonneg(scaled.z as int);
            lemma_sq_le(scaled.x as int, max as int);
            lemma_sq_le(scaled.y as int, max as int);
            lemma_sq_le(scaled.z as int, max as int);
            assert(norm2t(v3(*old(data))) == norm2(*old(data)));
            assert(v3(scaled) == limit_t(v3(*old(data)), max as int));
        }
        *data = scaled;
    } else {
        proof {
            lemma_sq_nonneg(data.x as int);
            lemma_sq_nonneg(data.y as int);
            lemma_sq_nonneg(data.z as int);
            lemma_sq_le(data.x as int, max as int);
            lemma_sq_le(data.y as int, max as int);
            lemma_sq_le(data.z as int, max as int);
            assert(norm2t(v3(*data)) == norm2(*data));
        }
    }
}

} // verus!
