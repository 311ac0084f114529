//! Hit records and the orientation of surface normals.
use vstd::prelude::*;
use crate::vec3::{bounded, dot, floor_div, in_box, in_reach, is_zero, lemma_mul_bound, v, vdot, vneg, Vec3, NORMAL_MAX, REACH_MAX};
use crate::ray::{at, Ray, T_SCALE};

verus! {

/// The nearest intersection of a ray with a surface.
#[derive(Clone, Copy, Debug, PartialEq, Eq, Structural)]
pub struct HitRecord {
    /// Ray parameter of the hit, in units of `1 / T_SCALE`.
    pub t: i64,
    /// The hit point, `ray.at(t)`.
    pub p: Vec3,
    /// The surface's geometric normal (not scaled to unit length), reversed where
    /// needed so that it faces against the incoming ray.
    pub normal: Vec3,
    /// Whether the ray met the geometric front of the surface.
    pub front_face: bool,
    /// Index of the surface's material in the scene's material list.
    pub mat: usize,
}

/// The stored normal for a geometric outward normal and a ray direction, with the
/// front-face flag: the outward normal where the ray comes from outside, else its
/// opposite.
pub open spec fn face(outward: Vec3, d: Vec3) -> (Vec3, bool) {
    if vdot(v(outward), v(d)) < 0 {
        (outward, true)
    } else {
        (Vec3 { x: (-outward.x) as i64, y: (-outward.y) as i64, z: (-outward.z) as i64 }, false)
    }
}

/// Orients an outward normal against the ray direction `d`, deciding the face from
/// the sign of their exact dot product.
pub fn face_normal(outward: Vec3, d: Vec3) -> (r: (Vec3, bool))
    requires
        bounded(v(outward), NORMAL_MAX as int),
        in_box(d),
    ensures
        r == face(outward, d),
        bounded(v(r.0), NORMAL_MAX as int),
{
    if dot(outward, d) < 0 {
        (outward, true)
    } else {
        (Vec3 { x: -outward.x, y: -outward.y, z: -outward.z }, false)
    }
}

/// The record of a hit of ray `r` at parameter `t` on a surface with outward
/// normal `outward`, where the hit point is within reach.
pub open spec fn record(r: Ray, t: int, outward: Vec3, mat: usize) -> HitRecord {
    let p = at(r, t);
    HitRecord {
        t: t as i64,
        p: Vec3 { x: p.0 as i64, y: p.1 as i64, z: p.2 as i64 },
        normal: face(outward, r.direction).0,
        front_face: face(outward, r.direction).1,
        mat,
    }
}

/// What every hit of `r` within `[t_min, t_max]` satisfies: the parameter lies in
/// the interval, the point is the ray's point at that parameter, and the normal
/// faces against the ray and has bounded components.
pub open spec fn valid_hit(h: HitRecord, r: Ray, t_min: int, t_max: int) -> bool {
    &&& t_min <= h.t <= t_max
    &&& v(h.p) == at(r, h.t as int)
    &&& in_reach(h.p)
    &&& vdot(v(h.normal), v(r.direction)) <= 0
    &&& bounded(v(h.normal), NORMAL_MAX as int)
}

/// A record built by `record` from a parameter in the interval whose point is within
/// reach is a valid hit: its point is the ray's point at its parameter and
/// its normal faces against the ray.
pub proof fn lemma_record_valid(r: Ray, t: int, outward: Vec3, mat: usize, t_min: int, t_max: int)
    requires
        i64::MIN <= t_min <= t <= t_max <= i64::MAX,
        bounded(at(r, t), REACH_MAX as int),
        bounded(v(outward), NORMAL_MAX as int),
    ensures
        valid_hit(record(r, t, outward, mat), r, t_min, t_max),
{
    let d = v(r.direction);
    let o = v(outward);
    let n = vneg(o);
    assert(vdot(n, d) == -vdot(o, d)) by (nonlinear_arith)
        requires
            n == vneg(o),
    ;
}

/// The parameter `num / den` (with `den > 0`) in units of `1 / T_SCALE`, rounded
/// down, where the exact value lies within `[t_min, t_max]`.
pub open spec fn param(num: int, den: int, t_min: int, t_max: int) -> Option<int> {
    if t_min * den <= num * T_SCALE <= t_max * den {
        Some((num * T_SCALE) / den)
    } else {
        None
    }
}

pub proof fn lemma_param_in_interval(num: int, den: int, t_min: int, t_max: int)
    requires
        den > 0,
        param(num, den, t_min, t_max) is Some,
    ensures
        t_min <= param(num, den, t_min, t_max)->0 <= t_max,
{
    vstd::arithmetic::div_mod::lemma_div_is_ordered(t_min * den, num * T_SCALE, den);
    vstd::arithmetic::div_mod::lemma_div_is_ordered(num * T_SCALE, t_max * den, den);
    vstd::arithmetic::div_mod::lemma_div_multiples_vanish(t_min, den);
    vstd::arithmetic::div_mod::lemma_div_multiples_vanish(t_max, den);
    assert(t_min * den == den * t_min && t_max * den == den * t_max) by (nonlinear_arith);
}

/// The hit of ray `r` at the exact parameter `num / den` (with `den > 0`) on a
/// surface with outward normal `outward`: none where the surface has no normal (it
/// is degenerate), where the parameter is out of the interval, or where the point
/// is out of reach.
pub open spec fn hit_of(r: Ray, num: int, den: int, t_min: int, t_max: int, outward: Vec3, mat: usize) -> Option<HitRecord> {
    if is_zero(v(outward)) {
        None
    } else {
        match param(num, den, t_min, t_max) {
            Some(t) => if bounded(at(r, t), REACH_MAX as int) {
                Some(record(r, t, outward, mat))
            } else {
                None
            },
            None => None,
        }
    }
}

pub fn hit_at(r: &Ray, num: i128, den: i128, t_min: i64, t_max: i64, outward: Vec3, mat: usize) -> (h: Option<HitRecord>)
    requires
        r.wf(),
        0 < den <= 0x4000_0000_0000_0000,
        -0x10_0000_0000_0000_0000_0000_0000 <= num <= 0x10_0000_0000_0000_0000_0000_0000,
        bounded(v(outward), NORMAL_MAX as int),
    ensures
        h == hit_of(*r, num as int, den as int, t_min as int, t_max as int, outward, mat),
        h matches Some(rec) ==> valid_hit(rec, *r, t_min as int, t_max as int),
{
    if outward.x == 0 && outward.y == 0 && outward.z == 0 {
        return None;
    }
    proof {
        lemma_mul_bound(t_min as int, den as int, 0x8000_0000_0000_0000, 0x4000_0000_0000_0000);
        lemma_mul_bound(t_max as int, den as int, 0x8000_0000_0000_0000, 0x4000_0000_0000_0000);
    }
    let scaled = num * T_SCALE as i128;
    if t_min as i128 * den <= scaled && scaled <= t_max as i128 * den {
        let t = floor_div(scaled, den);
        proof {
            lemma_param_in_interval(num as int, den as int, t_min as int, t_max as int);
        }
        let t = t as i64;
        match r.at(t) {
            Some(p) => {
                let (normal, front_face) = face_normal(outward, r.direction);
                proof {
                    lemma_record_valid(*r, t as int, outward, mat, t_min as int, t_max as int);
                }
                Some(HitRecord { t, p, normal, front_face, mat })
            },
            None => None,
        }
    } else {
        None
    }
}

} // verus!
