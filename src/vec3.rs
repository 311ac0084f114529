//! Integer 3-vectors and the exact arithmetic the geometry is built on.
use vstd::prelude::*;

verus! {

/// Largest magnitude of a coordinate of the scene's geometry (sphere centers and
/// radii, plane points and normals, triangle vertices) and of a ray direction. With
/// it, a triangle's normal and every intersection test stay within 128-bit
/// arithmetic even for ray origins as far out as `REACH_MAX`.
pub const COORD_MAX: i64 = 262144;

/// Largest magnitude of a coordinate of a ray origin or a hit point. Ray origins
/// range much further than the scene's own geometry; the bound keeps the next
/// intersection test from such a point within 128-bit arithmetic.
pub const REACH_MAX: i64 = 0x100_0000_0000;

/// Largest magnitude of a component of a stored surface normal.
pub const NORMAL_MAX: i64 = 0x400_0000_0000;

/// Length of a unit vector: normals and directions of unit length are scaled by this.
pub const UNIT: i64 = 4096;

/// A mathematical 3-vector.
pub type Triple = (int, int, int);

/// A 3-vector with integer components in a fixed unit of length.
#[derive(Clone, Copy, Debug, PartialEq, Eq, Structural)]
pub struct Vec3 {
    pub x: i64,
    pub y: i64,
    pub z: i64,
}

pub open spec fn v(a: Vec3) -> Triple {
    (a.x as int, a.y as int, a.z as int)
}

pub open spec fn vadd(a: Triple, b: Triple) -> Triple {
    (a.0 + b.0, a.1 + b.1, a.2 + b.2)
}

pub open spec fn vsub(a: Triple, b: Triple) -> Triple {
    (a.0 - b.0, a.1 - b.1, a.2 - b.2)
}

pub open spec fn vneg(a: Triple) -> Triple {
    (-a.0, -a.1, -a.2)
}

pub open spec fn vdot(a: Triple, b: Triple) -> int {
    a.0 * b.0 + a.1 * b.1 + a.2 * b.2
}

pub open spec fn vcross(a: Triple, b: Triple) -> Triple {
    (a.1 * b.2 - a.2 * b.1, a.2 * b.0 - a.0 * b.2, a.0 * b.1 - a.1 * b.0)
}

pub open spec fn is_zero(a: Triple) -> bool {
    a.0 == 0 && a.1 == 0 && a.2 == 0
}

/// Every component lies within `[-m, m]`.
pub open spec fn bounded(a: Triple, m: int) -> bool {
    -m <= a.0 <= m && -m <= a.1 <= m && -m <= a.2 <= m
}

/// A point of the scene's geometry, or a ray direction, inside the coordinate box.
pub open spec fn in_box(a: Vec3) -> bool {
    bounded(v(a), COORD_MAX as int)
}

/// A ray origin or a hit point within reach.
pub open spec fn in_reach(a: Vec3) -> bool {
    bounded(v(a), REACH_MAX as int)
}

/// `r` is the integer square root of `n`.
pub open spec fn is_sqrt(n: int, r: int) -> bool {
    0 <= r && r * r <= n < (r + 1) * (r + 1)
}

/// The integer square root (floor of the real square root) of `n`.
pub open spec fn sqrt_floor(n: int) -> int
    decreases n,
{
    if n <= 0 {
        0
    } else {
        let r = sqrt_floor(n - 1);
        if (r + 1) * (r + 1) <= n {
            r + 1
        } else {
            r
        }
    }
}

pub proof fn lemma_sqrt_floor(n: int)
    requires
        n >= 0,
    ensures
        is_sqrt(n, sqrt_floor(n)),
    decreases n,
{
    if n > 0 {
        lemma_sqrt_floor(n - 1);
        let r = sqrt_floor(n - 1);
        if (r + 1) * (r + 1) <= n {
            assert((r + 2) * (r + 2) > n) by (nonlinear_arith)
                requires
                    r >= 0,
                    n - 1 < (r + 1) * (r + 1),
            ;
        }
    }
}

pub proof fn lemma_sqrt_unique(n: int, r: int, s: int)
    requires
        is_sqrt(n, r),
        is_sqrt(n, s),
    ensures
        r == s,
{
    if r < s {
        assert((r + 1) * (r + 1) <= s * s) by (nonlinear_arith)
            requires
                0 <= r < s,
        ;
    } else if s < r {
        assert((s + 1) * (s + 1) <= r * r) by (nonlinear_arith)
            requires
                0 <= s < r,
        ;
    }
}

/// A bound on a product from bounds on its factors.
pub proof fn lemma_mul_bound(a: int, b: int, ma: int, mb: int)
    requires
        -ma <= a <= ma,
        -mb <= b <= mb,
    ensures
        -(ma * mb) <= a * b <= ma * mb,
{
    assert(-(ma * mb) <= a * b <= ma * mb) by (nonlinear_arith)
        requires
            -ma <= a <= ma,
            -mb <= b <= mb,
    ;
}

/// A bound on a dot product from bounds on the components of its factors.
pub proof fn lemma_dot_bound(a: Triple, b: Triple, ma: int, mb: int)
    requires
        bounded(a, ma),
        bounded(b, mb),
    ensures
        -3 * (ma * mb) <= vdot(a, b) <= 3 * (ma * mb),
{
    lemma_mul_bound(a.0, b.0, ma, mb);
    lemma_mul_bound(a.1, b.1, ma, mb);
    lemma_mul_bound(a.2, b.2, ma, mb);
}

/// Integer square root by bisection.
pub fn isqrt(n: u128) -> (r: u128)
    requires
        n < 0x1000_0000_0000_0000_0000_0000_0000_0000,
    ensures
        r == sqrt_floor(n as int),
        r < 0x4000_0000_0000_0000,
{
    let mut lo: u128 = 0;
    let mut hi: u128 = 0x4000_0000_0000_0000;
    assert(hi * hi > n) by (nonlinear_arith)
        requires
            hi == 0x4000_0000_0000_0000u128,
            n < 0x1000_0000_0000_0000_0000_0000_0000_0000,
    ;
    while lo + 1 < hi
        invariant
            lo < hi <= 0x4000_0000_0000_0000,
            lo * lo <= n,
            n < hi * hi,
        decreases hi - lo,
    {
        let mid = lo + (hi - lo) / 2;
        assert(mid * mid <= 0x1000_0000_0000_0000_0000_0000_0000_0000) by (nonlinear_arith)
            requires
                mid <= 0x4000_0000_0000_0000u128,
        ;
        if mid * mid <= n {
            lo = mid;
        } else {
            hi = mid;
        }
    }
    proof {
        assert(hi == lo + 1);
        lemma_sqrt_floor(n as int);
        lemma_sqrt_unique(n as int, lo as int, sqrt_floor(n as int));
    }
    lo
}

impl Vec3 {
    /// Whether the vector lies in the coordinate box.
    pub fn in_range(&self) -> (b: bool)
        ensures
            b == in_box(*self),
    {
        -COORD_MAX <= self.x && self.x <= COORD_MAX && -COORD_MAX <= self.y && self.y <= COORD_MAX
            && -COORD_MAX <= self.z && self.z <= COORD_MAX
    }

    /// Whether the vector is within reach.
    pub fn in_reach_range(&self) -> (b: bool)
        ensures
            b == in_reach(*self),
    {
        -REACH_MAX <= self.x && self.x <= REACH_MAX && -REACH_MAX <= self.y && self.y <= REACH_MAX
            && -REACH_MAX <= self.z && self.z <= REACH_MAX
    }

    pub fn new(x: i64, y: i64, z: i64) -> (r: Vec3)
        ensures
            r.x == x && r.y == y && r.z == z,
    {
        Vec3 { x, y, z }
    }
}

/// Component-wise difference of two vectors whose components stay under `2^60`.
pub fn diff(a: Vec3, b: Vec3) -> (r: Vec3)
    requires
        bounded(v(a), 0x1000_0000_0000_0000),
        bounded(v(b), 0x1000_0000_0000_0000),
    ensures
        v(r) == vsub(v(a), v(b)),
{
    Vec3 { x: a.x - b.x, y: a.y - b.y, z: a.z - b.z }
}

/// Dot product of two vectors whose components stay under `2^62`.
pub fn dot(a: Vec3, b: Vec3) -> (r: i128)
    requires
        bounded(v(a), 0x4000_0000_0000_0000),
        bounded(v(b), 0x4000_0000_0000_0000),
    ensures
        r == vdot(v(a), v(b)),
{
    proof {
        lemma_mul_bound(a.x as int, b.x as int, 0x4000_0000_0000_0000, 0x4000_0000_0000_0000);
        lemma_mul_bound(a.y as int, b.y as int, 0x4000_0000_0000_0000, 0x4000_0000_0000_0000);
        lemma_mul_bound(a.z as int, b.z as int, 0x4000_0000_0000_0000, 0x4000_0000_0000_0000);
    }
    (a.x as i128) * (b.x as i128) + (a.y as i128) * (b.y as i128) + (a.z as i128) * (b.z as i128)
}

/// Cross product of a vector whose components stay under `2^19` with one whose
/// components stay under `2^42`.
pub fn cross(a: Vec3, b: Vec3) -> (r: Vec3)
    requires
        bounded(v(a), 0x8_0000),
        bounded(v(b), 0x400_0000_0000),
    ensures
        v(r) == vcross(v(a), v(b)),
        bounded(v(r), 0x4000_0000_0000_0000),
        bounded(v(b), 0x8_0000) ==> bounded(v(r), 0x80_0000_0000),
{
    proof {
        lemma_cross_bound(v(a), v(b), 0x400_0000_0000);
        if bounded(v(b), 0x8_0000) {
            lemma_cross_bound(v(a), v(b), 0x8_0000);
        }
    }
    Vec3 { x: a.y * b.z - a.z * b.y, y: a.z * b.x - a.x * b.z, z: a.x * b.y - a.y * b.x }
}

proof fn lemma_cross_bound(a: Triple, b: Triple, mb: int)
    requires
        bounded(a, 0x8_0000),
        bounded(b, mb),
    ensures
        bounded(vcross(a, b), 2 * (0x8_0000 * mb)),
        -(0x8_0000 * mb) <= a.1 * b.2 <= 0x8_0000 * mb,
        -(0x8_0000 * mb) <= a.2 * b.1 <= 0x8_0000 * mb,
        -(0x8_0000 * mb) <= a.2 * b.0 <= 0x8_0000 * mb,
        -(0x8_0000 * mb) <= a.0 * b.2 <= 0x8_0000 * mb,
        -(0x8_0000 * mb) <= a.0 * b.1 <= 0x8_0000 * mb,
        -(0x8_0000 * mb) <= a.1 * b.0 <= 0x8_0000 * mb,
{
    lemma_mul_bound(a.1, b.2, 0x8_0000, mb);
    lemma_mul_bound(a.2, b.1, 0x8_0000, mb);
    lemma_mul_bound(a.2, b.0, 0x8_0000, mb);
    lemma_mul_bound(a.0, b.2, 0x8_0000, mb);
    lemma_mul_bound(a.0, b.1, 0x8_0000, mb);
    lemma_mul_bound(a.1, b.0, 0x8_0000, mb);
}

/// Floor of `n / d` for a positive divisor.
pub fn floor_div(n: i128, d: i128) -> (r: i128)
    requires
        d > 0,
    ensures
        r == n / d,
        n >= 0 ==> 0 <= r <= n,
        n < 0 ==> n <= r < 0,
{
    proof {
        let (nn, dd) = (n as int, d as int);
        vstd::arithmetic::div_mod::lemma_fundamental_div_mod(nn, dd);
        let q = nn / dd;
        let m = nn % dd;
        assert(nn >= 0 ==> 0 <= q <= nn) by (nonlinear_arith)
            requires
                nn == dd * q + m,
                0 <= m < dd,
                dd >= 1,
        ;
        assert(nn < 0 ==> nn <= q < 0) by (nonlinear_arith)
            requires
                nn == dd * q + m,
                0 <= m < dd,
                dd >= 1,
        ;
    }
    if n >= 0 {
        n / d
    } else {
        let q = (-(n + 1)) / d;
        proof {
            let m: int = -(n + 1);
            let dd: int = d as int;
            assert(q == m / dd);
            vstd::arithmetic::div_mod::lemma_fundamental_div_mod(m, dd);
            vstd::arithmetic::div_mod::lemma_fundamental_div_mod(n as int, d as int);
            assert((-q - 1) * dd == -(dd * q) - dd) by (nonlinear_arith);
            vstd::arithmetic::div_mod::lemma_fundamental_div_mod_converse(n as int, dd, -q - 1, dd - 1 - m % dd);
        }
        -q - 1
    }
}

/// The component `c` of a vector of length about `len`, scaled to length `UNIT`
/// and rounded toward zero.
pub open spec fn to_unit(c: int, len: int) -> int {
    if c >= 0 {
        (c * UNIT) / len
    } else {
        -((-c * UNIT) / len)
    }
}

/// The direction of `a` scaled to length `UNIT`, each component rounded toward
/// zero, so that `unit_of(-a) == -unit_of(a)`; the zero vector stays zero.
pub open spec fn unit_of(a: Triple) -> Triple {
    let len = sqrt_floor(vdot(a, a));
    if len == 0 {
        (0, 0, 0)
    } else {
        (to_unit(a.0, len), to_unit(a.1, len), to_unit(a.2, len))
    }
}

proof fn lemma_unit_component(c: int, n: int, len: int)
    requires
        c * c <= n,
        is_sqrt(n, len),
        len > 0,
    ensures
        -UNIT <= to_unit(c, len) <= UNIT,
{
    let m = if c >= 0 { c } else { -c };
    if m > len {
        assert((len + 1) * (len + 1) <= c * c) by (nonlinear_arith)
            requires
                0 <= len,
                m > len,
                m == c || m == -c,
        ;
    }
    assert(0 <= m * UNIT <= len * UNIT) by (nonlinear_arith)
        requires
            0 <= m <= len,
    ;
    vstd::arithmetic::div_mod::lemma_div_is_ordered(m * UNIT, len * UNIT, len);
    vstd::arithmetic::div_mod::lemma_div_is_ordered(0, m * UNIT, len);
    vstd::arithmetic::div_mod::lemma_div_multiples_vanish(UNIT as int, len);
    assert(len * UNIT == len * (UNIT as int));
}

pub proof fn lemma_unit_bounded(a: Triple)
    requires
        bounded(a, NORMAL_MAX as int),
    ensures
        bounded(unit_of(a), UNIT as int),
{
    let n = vdot(a, a);
    assert(0 <= a.0 * a.0 && 0 <= a.1 * a.1 && 0 <= a.2 * a.2) by (nonlinear_arith);
    let len = sqrt_floor(n);
    lemma_sqrt_floor(n);
    if len > 0 {
        lemma_unit_component(a.0, n, len);
        lemma_unit_component(a.1, n, len);
        lemma_unit_component(a.2, n, len);
    }
}

fn scale_to_unit(c: i64, len: i128) -> (r: i64)
    requires
        len > 0,
        -NORMAL_MAX <= c <= NORMAL_MAX,
        -UNIT <= to_unit(c as int, len as int) <= UNIT,
    ensures
        r == to_unit(c as int, len as int),
{
    if c >= 0 {
        floor_div(c as i128 * UNIT as i128, len) as i64
    } else {
        -(floor_div(-(c as i128) * UNIT as i128, len) as i64)
    }
}

/// The direction of `a` scaled to length `UNIT`, rounded toward zero.
pub fn unit(a: Vec3) -> (r: Vec3)
    requires
        bounded(v(a), NORMAL_MAX as int),
    ensures
        v(r) == unit_of(v(a)),
        bounded(v(r), UNIT as int),
{
    proof {
        lemma_unit_bounded(v(a));
        lemma_mul_bound(a.x as int, a.x as int, NORMAL_MAX as int, NORMAL_MAX as int);
        lemma_mul_bound(a.y as int, a.y as int, NORMAL_MAX as int, NORMAL_MAX as int);
        lemma_mul_bound(a.z as int, a.z as int, NORMAL_MAX as int, NORMAL_MAX as int);
        assert(0 <= a.x * a.x && 0 <= a.y * a.y && 0 <= a.z * a.z) by (nonlinear_arith);
    }
    let n = dot(a, a);
    let len = isqrt(n as u128) as i128;
    assert(len == sqrt_floor(vdot(v(a), v(a))));
    if len == 0 {
        return Vec3 { x: 0, y: 0, z: 0 };
    }
    Vec3 { x: scale_to_unit(a.x, len), y: scale_to_unit(a.y, len), z: scale_to_unit(a.z, len) }
}

/// Component-wise sum of two vectors whose components stay under `2^40`.
pub fn sum(a: Vec3, b: Vec3) -> (r: Vec3)
    requires
        bounded(v(a), 0x100_0000_0000),
        bounded(v(b), 0x100_0000_0000),
    ensures
        v(r) == vadd(v(a), v(b)),
{
    Vec3 { x: a.x + b.x, y: a.y + b.y, z: a.z + b.z }
}

/// The mirror image of direction `d` about a surface with unit normal `n`:
/// `d - 2 dot(d, n) n`, with `n` of length `UNIT`.
pub open spec fn reflect_of(d: Triple, n: Triple) -> Triple {
    let k = 2 * vdot(d, n);
    let s = UNIT * UNIT;
    (d.0 - (k * n.0) / s, d.1 - (k * n.1) / s, d.2 - (k * n.2) / s)
}

pub fn reflect(d: Vec3, n: Vec3) -> (r: Vec3)
    requires
        bounded(v(d), UNIT as int),
        bounded(v(n), UNIT as int),
    ensures
        v(r) == reflect_of(v(d), v(n)),
        bounded(v(r), 7 * UNIT),
{
    let dn = dot(d, n);
    proof {
        lemma_dot_bound(v(d), v(n), UNIT as int, UNIT as int);
    }
    let k = 2 * dn;
    let s = (UNIT * UNIT) as i128;
    proof {
        lemma_mul_bound(k as int, n.x as int, 6 * UNIT * UNIT, UNIT as int);
        lemma_mul_bound(k as int, n.y as int, 6 * UNIT * UNIT, UNIT as int);
        lemma_mul_bound(k as int, n.z as int, 6 * UNIT * UNIT, UNIT as int);
        lemma_div_bound(k * n.x, s as int, 6 * UNIT);
        lemma_div_bound(k * n.y, s as int, 6 * UNIT);
        lemma_div_bound(k * n.z, s as int, 6 * UNIT);
    }
    let x = d.x as i128 - floor_div(k * n.x as i128, s);
    let y = d.y as i128 - floor_div(k * n.y as i128, s);
    let z = d.z as i128 - floor_div(k * n.z as i128, s);
    Vec3 { x: x as i64, y: y as i64, z: z as i64 }
}

/// A bound on a quotient from a bound on the dividend.
pub proof fn lemma_div_bound(a: int, d: int, m: int)
    requires
        d > 0,
        m >= 0,
        -(m * d) <= a <= m * d,
    ensures
        -m <= a / d <= m,
{
    vstd::arithmetic::div_mod::lemma_div_is_ordered(a, m * d, d);
    vstd::arithmetic::div_mod::lemma_div_is_ordered(-(m * d), a, d);
    vstd::arithmetic::div_mod::lemma_div_multiples_vanish(m, d);
    vstd::arithmetic::div_mod::lemma_div_multiples_vanish(-m, d);
    assert(m * d == d * m && -(m * d) == d * (-m)) by (nonlinear_arith);
}

} // verus!
