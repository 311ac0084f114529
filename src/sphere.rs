//! The geometric primitives: spheres, planes and triangles.
use vstd::prelude::*;
use crate::vec3::{
    bounded, cross, diff, dot, floor_div, in_box, isqrt, lemma_dot_bound, lemma_mul_bound, sqrt_floor, v, vcross,
    vdot, vneg, vsub, Triple, Vec3, COORD_MAX, NORMAL_MAX, REACH_MAX,
};
use crate::ray::{at, Ray, T_SCALE};
use crate::hit::{face, hit_at, hit_of, lemma_param_in_interval, lemma_record_valid, param, valid_hit, HitRecord};

verus! {

/// The vector with the components of a triple that fits in `i64`.
pub open spec fn to_vec(a: Triple) -> Vec3 {
    Vec3 { x: a.0 as i64, y: a.1 as i64, z: a.2 as i64 }
}

proof fn lemma_hit_of_valid(r: Ray, num: int, den: int, t_min: int, t_max: int, outward: Vec3, mat: usize)
    requires
        den > 0,
        i64::MIN <= t_min,
        t_max <= i64::MAX,
        param(num, den, t_min, t_max) matches Some(t) && bounded(at(r, t), REACH_MAX as int)
            ==> bounded(v(outward), NORMAL_MAX as int),
    ensures
        hit_of(r, num, den, t_min, t_max, outward, mat) matches Some(h) ==> valid_hit(h, r, t_min, t_max),
{
    if let Some(t) = param(num, den, t_min, t_max) {
        lemma_param_in_interval(num, den, t_min, t_max);
        if bounded(at(r, t), REACH_MAX as int) {
            lemma_record_valid(r, t, outward, mat, t_min, t_max);
        }
    }
}

proof fn lemma_signed_hit_valid(r: Ray, num: int, den: int, t_min: int, t_max: int, outward: Vec3, mat: usize)
    requires
        i64::MIN <= t_min,
        t_max <= i64::MAX,
        bounded(v(outward), NORMAL_MAX as int),
    ensures
        signed_hit(r, num, den, t_min, t_max, outward, mat) matches Some(h) ==> valid_hit(h, r, t_min, t_max),
{
    if den > 0 {
        lemma_hit_of_valid(r, num, den, t_min, t_max, outward, mat);
    } else if den < 0 {
        lemma_hit_of_valid(r, -num, -den, t_min, t_max, outward, mat);
    }
}

/// Every hit of a sphere lies within the interval, its point is the ray's point at
/// its parameter, and its normal faces against the ray.
pub proof fn lemma_sphere_hits_valid(s: Sphere, r: Ray, t_min: int, t_max: int)
    requires
        s.wf(),
        r.wf(),
        i64::MIN <= t_min,
        t_max <= i64::MAX,
    ensures
        s.hit_spec(r, t_min, t_max) matches Some(h) ==> valid_hit(h, r, t_min, t_max),
{
    let (a, half_b, c) = s.quadratic(r);
    let disc = half_b * half_b - a * c;
    if s.radius != 0 && a != 0 && disc >= 0 {
        assert(a > 0) by (nonlinear_arith)
            requires
                a == vdot(v(r.direction), v(r.direction)),
                a != 0,
        ;
        let sq = sqrt_floor(disc);
        lemma_root_hit_valid(s, r, -half_b - sq, a, t_min, t_max);
        lemma_root_hit_valid(s, r, -half_b + sq, a, t_min, t_max);
    }
}

proof fn lemma_root_hit_valid(s: Sphere, r: Ray, num: int, a: int, t_min: int, t_max: int)
    requires
        s.wf(),
        r.wf(),
        a > 0,
        i64::MIN <= t_min,
        t_max <= i64::MAX,
    ensures
        s.root_hit(r, num, a, t_min, t_max) matches Some(h) ==> valid_hit(h, r, t_min, t_max),
{
    lemma_hit_of_valid(r, num, a, t_min, t_max, s.outward(at(r, (num * T_SCALE) / a)), s.mat);
}

/// Every hit of a plane lies within the interval, its point is the ray's point at
/// its parameter, and its normal faces against the ray.
pub proof fn lemma_plane_hits_valid(pl: Plane, r: Ray, t_min: int, t_max: int)
    requires
        pl.wf(),
        r.wf(),
        i64::MIN <= t_min,
        t_max <= i64::MAX,
    ensures
        pl.hit_spec(r, t_min, t_max) matches Some(h) ==> valid_hit(h, r, t_min, t_max),
{
    lemma_signed_hit_valid(
        r,
        vdot(vsub(v(pl.center), v(r.origin)), v(pl.normal)),
        vdot(v(pl.normal), v(r.direction)),
        t_min,
        t_max,
        pl.normal,
        pl.mat,
    );
}

proof fn lemma_norm_bounded(tri: Triangle)
    requires
        tri.wf(),
    ensures
        bounded(tri.norm(), 0x80_0000_0000),
        v(to_vec(tri.norm())) == tri.norm(),
{
    let e0 = vsub(v(tri.v1), v(tri.v0));
    let e1 = vsub(v(tri.v2), v(tri.v1));
    lemma_mul_bound(e0.1, e1.2, 0x8_0000, 0x8_0000);
    lemma_mul_bound(e0.2, e1.1, 0x8_0000, 0x8_0000);
    lemma_mul_bound(e0.2, e1.0, 0x8_0000, 0x8_0000);
    lemma_mul_bound(e0.0, e1.2, 0x8_0000, 0x8_0000);
    lemma_mul_bound(e0.0, e1.1, 0x8_0000, 0x8_0000);
    lemma_mul_bound(e0.1, e1.0, 0x8_0000, 0x8_0000);
}

/// Every hit of a triangle lies within the interval, its point is the ray's point
/// at its parameter, and its normal faces against the ray.
pub proof fn lemma_triangle_hits_valid(tri: Triangle, r: Ray, t_min: int, t_max: int)
    requires
        tri.wf(),
        r.wf(),
        i64::MIN <= t_min,
        t_max <= i64::MAX,
    ensures
        tri.hit_spec(r, t_min, t_max) matches Some(h) ==> valid_hit(h, r, t_min, t_max),
{
    let n = tri.norm();
    lemma_norm_bounded(tri);
    lemma_signed_hit_valid(
        r,
        vdot(n, vsub(v(tri.v0), v(r.origin))),
        vdot(n, v(r.direction)),
        t_min,
        t_max,
        to_vec(n),
        tri.mat,
    );
}

/// A sphere; a negative radius turns its normals inward.
#[derive(Clone, Copy, Debug, PartialEq, Eq, Structural)]
pub struct Sphere {
    pub center: Vec3,
    pub radius: i64,
    pub mat: usize,
}

impl Sphere {
    pub open spec fn wf(&self) -> bool {
        in_box(self.center) && -COORD_MAX <= self.radius <= COORD_MAX
    }

    pub fn new(cen: Vec3, r: i64, m: usize) -> (s: Sphere)
        ensures
            s.center == cen && s.radius == r && s.mat == m,
    {
        Sphere { center: cen, radius: r, mat: m }
    }

    /// The outward normal at `p`: the vector from the center to `p`, a positive
    /// multiple of `(p - center) / radius`, so reversed for a negative radius.
    pub open spec fn outward(&self, p: Triple) -> Vec3 {
        let d = vsub(p, v(self.center));
        if self.radius < 0 {
            to_vec(vneg(d))
        } else {
            to_vec(d)
        }
    }

    /// Squared length of the direction, half the linear coefficient, and the
    /// constant of the quadratic `a t^2 + 2 half_b t + c = 0`.
    pub open spec fn quadratic(&self, r: Ray) -> (int, int, int) {
        let oc = vsub(v(r.origin), v(self.center));
        let d = v(r.direction);
        (vdot(d, d), vdot(oc, d), vdot(oc, oc) - self.radius * self.radius)
    }

    /// The hit at the root `num / den`, if it is in the interval and within reach.
    pub open spec fn root_hit(&self, r: Ray, num: int, den: int, t_min: int, t_max: int) -> Option<HitRecord> {
        hit_of(r, num, den, t_min, t_max, self.outward(at(r, (num * T_SCALE) / den)), self.mat)
    }

    /// The nearest hit: the smaller root if it gives a hit, else the larger one;
    /// none for a sphere of radius zero (it is degenerate), a negative
    /// discriminant or a zero direction.
    pub open spec fn hit_spec(&self, r: Ray, t_min: int, t_max: int) -> Option<HitRecord> {
        let (a, half_b, c) = self.quadratic(r);
        let disc = half_b * half_b - a * c;
        if self.radius == 0 || a == 0 || disc < 0 {
            None
        } else {
            let sq = sqrt_floor(disc);
            let near = self.root_hit(r, -half_b - sq, a, t_min, t_max);
            if near is Some {
                near
            } else {
                self.root_hit(r, -half_b + sq, a, t_min, t_max)
            }
        }
    }

    fn root_hit_exec(&self, r: &Ray, num: i128, a: i128, t_min: i64, t_max: i64) -> (h: Option<HitRecord>)
        requires
            self.wf(),
            r.wf(),
            0 < a <= 0x30_0000_0000,
            -0x8000_0000_0000_0000 <= num <= 0x8000_0000_0000_0000,
        ensures
            h == self.root_hit(*r, num as int, a as int, t_min as int, t_max as int),
            h matches Some(rec) ==> valid_hit(rec, *r, t_min as int, t_max as int),
    {
        proof {
            lemma_mul_bound(t_min as int, a as int, 0x8000_0000_0000_0000, 0x30_0000_0000);
            lemma_mul_bound(t_max as int, a as int, 0x8000_0000_0000_0000, 0x30_0000_0000);
        }
        let scaled = num * T_SCALE as i128;
        if !(t_min as i128 * a <= scaled && scaled <= t_max as i128 * a) {
            return None;
        }
        let t = floor_div(scaled, a);
        proof {
            lemma_param_in_interval(num as int, a as int, t_min as int, t_max as int);
        }
        match r.at(t as i64) {
            Some(p) => {
                let d = diff(p, self.center);
                let outward = if self.radius < 0 {
                    Vec3 { x: -d.x, y: -d.y, z: -d.z }
                } else {
                    d
                };
                hit_at(r, num, a, t_min, t_max, outward, self.mat)
            },
            None => None,
        }
    }

    /// The nearest hit within `[t_min, t_max]`; a reported hit's point is the ray's
    /// point at its parameter, and its normal is the outward normal there, reversed
    /// exactly where the ray meets the inside.
    pub fn hit(&self, r: &Ray, t_min: i64, t_max: i64) -> (h: Option<HitRecord>)
        requires
            self.wf(),
            r.wf(),
        ensures
            h == self.hit_spec(*r, t_min as int, t_max as int),
            h matches Some(rec) ==> valid_hit(rec, *r, t_min as int, t_max as int),
            h matches Some(rec) ==> rec.front_face == (vdot(v(self.outward(v(rec.p))), v(r.direction)) < 0)
                && rec.normal == face(self.outward(v(rec.p)), r.direction).0,
    {
        if self.radius == 0 {
            return None;
        }
        let oc = diff(r.origin, self.center);
        let a = dot(r.direction, r.direction);
        let half_b = dot(oc, r.direction);
        let cc = dot(oc, oc);
        proof {
            lemma_dot_bound(v(r.direction), v(r.direction), 0x4_0000, 0x4_0000);
            assert(0 <= a) by (nonlinear_arith)
                requires
                    a == vdot(v(r.direction), v(r.direction)),
            ;
            lemma_dot_bound(v(oc), v(oc), 0x200_0000_0000, 0x200_0000_0000);
            assert(0 <= cc) by (nonlinear_arith)
                requires
                    cc == vdot(v(oc), v(oc)),
            ;
            lemma_dot_bound(v(oc), v(r.direction), 0x200_0000_0000, 0x4_0000);
            lemma_mul_bound(self.radius as int, self.radius as int, COORD_MAX as int, COORD_MAX as int);
            lemma_mul_bound(half_b as int, half_b as int, 0x1800_0000_0000_0000, 0x1800_0000_0000_0000);
            assert(-0xD_0000_0000_0000_0000_0000 <= cc - self.radius * self.radius <= 0xD_0000_0000_0000_0000_0000);
            lemma_mul_bound(a as int, cc - self.radius * self.radius, 0x30_0000_0000, 0xD_0000_0000_0000_0000_0000);
        }
        let c = cc - self.radius as i128 * self.radius as i128;
        let disc = half_b * half_b - a * c;
        if a == 0 || disc < 0 {
            return None;
        }
        let sq = isqrt(disc as u128) as i128;
        let near = self.root_hit_exec(r, -half_b - sq, a, t_min, t_max);
        let h = if near.is_some() {
            near
        } else {
            self.root_hit_exec(r, -half_b + sq, a, t_min, t_max)
        };
        h
    }
}

/// An infinite plane through `center` with normal `normal`.
#[derive(Clone, Copy, Debug, PartialEq, Eq, Structural)]
pub struct Plane {
    pub center: Vec3,
    pub normal: Vec3,
    pub mat: usize,
}

/// The hit for the exact parameter `num / den` with the sign of `den` moved into
/// the numerator; none where `den` is zero, that is for a ray parallel to the
/// surface.
pub open spec fn signed_hit(r: Ray, num: int, den: int, t_min: int, t_max: int, outward: Vec3, mat: usize) -> Option<HitRecord> {
    if den == 0 {
        None
    } else if den > 0 {
        hit_of(r, num, den, t_min, t_max, outward, mat)
    } else {
        hit_of(r, -num, -den, t_min, t_max, outward, mat)
    }
}

fn signed_hit_at(r: &Ray, num: i128, den: i128, t_min: i64, t_max: i64, outward: Vec3, mat: usize) -> (h: Option<HitRecord>)
    requires
        r.wf(),
        -0x4000_0000_0000_0000 <= den <= 0x4000_0000_0000_0000,
        -0x10_0000_0000_0000_0000_0000_0000 <= num <= 0x10_0000_0000_0000_0000_0000_0000,
        bounded(v(outward), NORMAL_MAX as int),
    ensures
        h == signed_hit(*r, num as int, den as int, t_min as int, t_max as int, outward, mat),
        h matches Some(rec) ==> valid_hit(rec, *r, t_min as int, t_max as int),
{
    if den == 0 {
        None
    } else if den > 0 {
        hit_at(r, num, den, t_min, t_max, outward, mat)
    } else {
        hit_at(r, -num, -den, t_min, t_max, outward, mat)
    }
}

impl Plane {
    pub open spec fn wf(&self) -> bool {
        in_box(self.center) && in_box(self.normal)
    }

    pub fn new(c: Vec3, n: Vec3, m: usize) -> (p: Plane)
        ensures
            p.center == c && p.normal == n && p.mat == m,
    {
        Plane { center: c, normal: n, mat: m }
    }

    /// The single crossing `t = dot(center - origin, normal) / dot(direction, normal)`
    /// if it lies in the interval; none for a ray parallel to the plane. With integer
    /// coordinates the denominator is exact, so only an exactly parallel ray is
    /// turned away.
    pub open spec fn hit_spec(&self, r: Ray, t_min: int, t_max: int) -> Option<HitRecord> {
        signed_hit(
            r,
            vdot(vsub(v(self.center), v(r.origin)), v(self.normal)),
            vdot(v(self.normal), v(r.direction)),
            t_min,
            t_max,
            self.normal,
            self.mat,
        )
    }

    /// The nearest hit within `[t_min, t_max]`; a reported hit's point is the ray's
    /// point at its parameter and its normal faces against the ray.
    pub fn hit(&self, r: &Ray, t_min: i64, t_max: i64) -> (h: Option<HitRecord>)
        requires
            self.wf(),
            r.wf(),
        ensures
            h == self.hit_spec(*r, t_min as int, t_max as int),
            h matches Some(rec) ==> valid_hit(rec, *r, t_min as int, t_max as int),
            h matches Some(rec) ==> rec.front_face == (vdot(v(self.normal), v(r.direction)) < 0)
                && rec.normal == face(self.normal, r.direction).0,
    {
        let den = dot(self.normal, r.direction);
        let p0l0 = diff(self.center, r.origin);
        let num = dot(p0l0, self.normal);
        proof {
            assert(-0x30_0000_0000 <= den <= 0x30_0000_0000) by (nonlinear_arith)
                requires
                    den == vdot(v(self.normal), v(r.direction)),
                    bounded(v(self.normal), 0x4_0000),
                    bounded(v(r.direction), 0x4_0000),
            ;
            lemma_dot_bound(v(p0l0), v(self.normal), 0x200_0000_0000, 0x4_0000);
        }
        signed_hit_at(r, num, den, t_min, t_max, self.normal, self.mat)
    }
}

/// A ray whose direction is orthogonal to a plane's normal, that is parallel to
/// the plane, never hits it, whatever its origin and the interval.
pub proof fn lemma_parallel_misses_plane(pl: Plane, r: Ray, t_min: int, t_max: int)
    requires
        vdot(v(pl.normal), v(r.direction)) == 0,
    ensures
        pl.hit_spec(r, t_min, t_max) is None,
{
}

/// A triangle; its front faces the side from which `v0, v1, v2` run counter-clockwise.
#[derive(Clone, Copy, Debug, PartialEq, Eq, Structural)]
pub struct Triangle {
    pub v0: Vec3,
    pub v1: Vec3,
    pub v2: Vec3,
    pub mat: usize,
}

impl Triangle {
    pub open spec fn wf(&self) -> bool {
        in_box(self.v0) && in_box(self.v1) && in_box(self.v2)
    }

    pub fn new(vert0: Vec3, vert1: Vec3, vert2: Vec3, mater: usize) -> (t: Triangle)
        ensures
            t.v0 == vert0 && t.v1 == vert1 && t.v2 == vert2 && t.mat == mater,
    {
        Triangle { v0: vert0, v1: vert1, v2: vert2, mat: mater }
    }

    /// The geometric normal `cross(v1 - v0, v2 - v1)`.
    pub open spec fn norm(&self) -> Triple {
        vcross(vsub(v(self.v1), v(self.v0)), vsub(v(self.v2), v(self.v1)))
    }

    /// Edge function of the edge from `a` to `b` at `p`: not negative where `p`
    /// lies on the inner side of that edge.
    pub open spec fn edge(&self, a: Vec3, b: Vec3, p: Vec3) -> int {
        vdot(self.norm(), vcross(vsub(v(b), v(a)), vsub(v(p), v(a))))
    }

    /// `p` lies on the inner side of all three edges, or on one of them.
    pub open spec fn inside(&self, p: Vec3) -> bool {
        self.edge(self.v0, self.v1, p) >= 0 && self.edge(self.v1, self.v2, p) >= 0
            && self.edge(self.v2, self.v0, p) >= 0
    }

    /// The crossing with the triangle's plane, if it lies in the interval and its
    /// point passes the inside test against all three edges.
    ///
    /// The parameter is held to `[t_min, t_max]` like that of every other surface,
    /// and each edge function is compared with zero: the interval bounds take no
    /// part in the inside test, so a point on an edge counts as inside whatever the
    /// interval. A ray parallel to the triangle's plane, or a degenerate triangle
    /// (whose normal vanishes), gives no hit.
    pub open spec fn hit_spec(&self, r: Ray, t_min: int, t_max: int) -> Option<HitRecord> {
        let n = self.norm();
        match signed_hit(
            r,
            vdot(n, vsub(v(self.v0), v(r.origin))),
            vdot(n, v(r.direction)),
            t_min,
            t_max,
            to_vec(n),
            self.mat,
        ) {
            Some(h) => if self.inside(h.p) {
                Some(h)
            } else {
                None
            },
            None => None,
        }
    }

    fn edge_fn(&self, norm: Vec3, a: Vec3, b: Vec3, p: Vec3) -> (e: i128)
        requires
            self.wf(),
            v(norm) == self.norm(),
            bounded(v(norm), 0x80_0000_0000),
            in_box(a),
            in_box(b),
            crate::vec3::in_reach(p),
        ensures
            e == self.edge(a, b, p),
    {
        let c = cross(diff(b, a), diff(p, a));
        dot(norm, c)
    }

    /// The nearest hit within `[t_min, t_max]`; a reported hit's point is the ray's
    /// point at its parameter and its normal faces against the ray.
    pub fn hit(&self, r: &Ray, t_min: i64, t_max: i64) -> (h: Option<HitRecord>)
        requires
            self.wf(),
            r.wf(),
        ensures
            h == self.hit_spec(*r, t_min as int, t_max as int),
            h matches Some(rec) ==> valid_hit(rec, *r, t_min as int, t_max as int),
            h matches Some(rec) ==> rec.front_face == (vdot(self.norm(), v(r.direction)) < 0)
                && rec.normal == face(to_vec(self.norm()), r.direction).0,
    {
        let edge0 = diff(self.v1, self.v0);
        let edge1 = diff(self.v2, self.v1);
        let norm = cross(edge0, edge1);
        let den = dot(norm, r.direction);
        let v0o = diff(self.v0, r.origin);
        let num = dot(norm, v0o);
        proof {
            lemma_dot_bound(v(norm), v(r.direction), 0x80_0000_0000, 0x4_0000);
            lemma_dot_bound(v(norm), v(v0o), 0x80_0000_0000, 0x200_0000_0000);
        }
        proof {
            lemma_norm_bounded(*self);
        }
        match signed_hit_at(r, num, den, t_min, t_max, norm, self.mat) {
            Some(rec) => {
                if self.edge_fn(norm, self.v0, self.v1, rec.p) >= 0
                    && self.edge_fn(norm, self.v1, self.v2, rec.p) >= 0
                    && self.edge_fn(norm, self.v2, self.v0, rec.p) >= 0 {
                    Some(rec)
                } else {
                    None
                }
            },
            None => None,
        }
    }
}

} // verus!
