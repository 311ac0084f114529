//! Colors, surface materials and how they scatter light.
use vstd::prelude::*;
use crate::vec3::{
    sum, bounded, dot, isqrt, lemma_dot_bound, sqrt_floor, floor_div, is_zero, lemma_mul_bound, reflect, reflect_of, unit, unit_of, v,
    vadd, vdot, vneg, Triple, Vec3, UNIT,
};
use crate::ray::Ray;
use crate::hit::{valid_hit, HitRecord};

verus! {

/// Fixed-point scale of colors and of material parameters: `ONE` stands for 1.0.
pub const ONE: i64 = 1000;

/// Largest channel value of an emitted color.
pub const COLOR_MAX: i64 = 1048576;

/// A color, each channel a fixed-point number in units of `1 / ONE`.
#[derive(Clone, Copy, Debug, PartialEq, Eq, Structural)]
pub struct Color {
    pub r: i64,
    pub g: i64,
    pub b: i64,
}

impl Color {
    pub fn new(r: i64, g: i64, b: i64) -> (c: Color)
        ensures
            c.r == r && c.g == g && c.b == b,
    {
        Color { r, g, b }
    }

    pub fn is_within(&self, m: i64) -> (b: bool)
        ensures
            b == self.within(m as int),
    {
        0 <= self.r && self.r <= m && 0 <= self.g && self.g <= m && 0 <= self.b && self.b <= m
    }

    pub open spec fn within(&self, m: int) -> bool {
        0 <= self.r <= m && 0 <= self.g <= m && 0 <= self.b <= m
    }
}

pub open spec fn black() -> Color {
    Color { r: 0, g: 0, b: 0 }
}

/// Component-wise product of an attenuation and a color, rounded down.
pub open spec fn attenuate(a: Color, c: Color) -> Color {
    Color {
        r: ((a.r * c.r) / (ONE as int)) as i64,
        g: ((a.g * c.g) / (ONE as int)) as i64,
        b: ((a.b * c.b) / (ONE as int)) as i64,
    }
}

proof fn lemma_attenuate_channel(a: int, c: int)
    requires
        0 <= a <= ONE,
        0 <= c <= COLOR_MAX,
    ensures
        0 <= (a * c) / (ONE as int) <= COLOR_MAX,
{
    assert(0 <= a * c <= COLOR_MAX * ONE) by (nonlinear_arith)
        requires
            0 <= a <= ONE,
            0 <= c <= COLOR_MAX,
    ;
    vstd::arithmetic::div_mod::lemma_div_is_ordered(a * c, COLOR_MAX * ONE, ONE as int);
    vstd::arithmetic::div_mod::lemma_div_is_ordered(0, a * c, ONE as int);
    vstd::arithmetic::div_mod::lemma_div_multiples_vanish(COLOR_MAX as int, ONE as int);
}

pub fn mul_color(a: Color, c: Color) -> (r: Color)
    requires
        a.within(ONE as int),
        c.within(COLOR_MAX as int),
    ensures
        r == attenuate(a, c),
        r.within(COLOR_MAX as int),
{
    proof {
        lemma_attenuate_channel(a.r as int, c.r as int);
        lemma_attenuate_channel(a.g as int, c.g as int);
        lemma_attenuate_channel(a.b as int, c.b as int);
    }
    Color { r: a.r * c.r / ONE, g: a.g * c.g / ONE, b: a.b * c.b / ONE }
}

/// The random input of one scattering event: a vector in the ball of radius `UNIT`
/// and a number uniform in `[0, ONE)`.
#[derive(Clone, Copy, Debug, PartialEq, Eq, Structural)]
pub struct Draw {
    pub ball: Vec3,
    pub pick: i64,
}

impl Draw {
    pub open spec fn wf(&self) -> bool {
        vdot(v(self.ball), v(self.ball)) <= UNIT * UNIT && 0 <= self.pick < ONE
    }
}

/// A surface material.
#[derive(Clone, Copy, Debug, PartialEq, Eq, Structural)]
pub enum Material {
    /// Diffuse reflection with the given albedo.
    Lambertian { albedo: Color },
    /// Mirror reflection perturbed by `fuzz / ONE` times a random vector.
    Metal { albedo: Color, fuzz: i64 },
    /// Mirror reflection with probability `mix / ONE`, else diffuse reflection.
    Glossy { albedo: Color, mix: i64 },
    /// A clear medium of refractive index `ir / ONE`, tinted.
    Dielectric { tint: Color, ir: i64 },
    /// A light source of the given color.
    Emittor { color: Color },
}

/// A direction with components well inside the coordinate box.
pub open spec fn short(d: Triple) -> bool {
    bounded(d, 16 * UNIT)
}

/// Diffuse direction: the normal plus the random vector, or the normal where the
/// sum vanishes.
pub open spec fn diffuse_dir(n: Vec3, ball: Vec3) -> Triple {
    let s = vadd(v(n), v(ball));
    if is_zero(s) {
        v(n)
    } else {
        s
    }
}

/// Mirror direction of the unit incoming direction, perturbed by `fuzz` times the
/// random vector.
pub open spec fn metal_dir(d: Vec3, n: Vec3, fuzz: int, ball: Vec3) -> Triple {
    vadd(
        reflect_of(unit_of(v(d)), v(n)),
        ((fuzz * ball.x) / (ONE as int), (fuzz * ball.y) / (ONE as int), (fuzz * ball.z) / (ONE as int)),
    )
}

pub open spec fn ray_from(p: Vec3, d: Triple) -> Ray {
    Ray { origin: p, direction: Vec3 { x: d.0 as i64, y: d.1 as i64, z: d.2 as i64 } }
}

/// The hit's normal scaled to unit length.
pub open spec fn unit_normal(h: HitRecord) -> Vec3 {
    let n = unit_of(v(h.normal));
    Vec3 { x: n.0 as i64, y: n.1 as i64, z: n.2 as i64 }
}

/// Mirror reflection about the unit normal `n` at `p`: absorbed where the
/// reflected direction does not leave the surface.
pub open spec fn specular(albedo: Color, d: Vec3, p: Vec3, n: Vec3, fuzz: int, ball: Vec3) -> Option<(Color, Ray)> {
    let dir = metal_dir(d, n, fuzz, ball);
    if vdot(dir, v(n)) > 0 {
        Some((albedo, ray_from(p, dir)))
    } else {
        None
    }
}

impl Material {
    pub open spec fn wf(&self) -> bool {
        match *self {
            Material::Lambertian { albedo } => albedo.within(ONE as int),
            Material::Metal { albedo, fuzz } => albedo.within(ONE as int) && 0 <= fuzz <= ONE,
            Material::Glossy { albedo, mix } => albedo.within(ONE as int) && 0 <= mix <= ONE,
            Material::Dielectric { tint, ir } => tint.within(ONE as int) && 1 <= ir <= 100 * ONE,
            Material::Emittor { color } => color.within(COLOR_MAX as int),
        }
    }

    pub fn is_valid(&self) -> (b: bool)
        ensures
            b == self.wf(),
    {
        match self {
            Material::Lambertian { albedo } => albedo.is_within(ONE),
            Material::Metal { albedo, fuzz } => albedo.is_within(ONE) && 0 <= *fuzz && *fuzz <= ONE,
            Material::Glossy { albedo, mix } => albedo.is_within(ONE) && 0 <= *mix && *mix <= ONE,
            Material::Dielectric { tint, ir } => tint.is_within(ONE) && 1 <= *ir && *ir <= 100 * ONE,
            Material::Emittor { color } => color.is_within(COLOR_MAX),
        }
    }

    /// Whether the material is a light source.
    pub open spec fn emits(&self) -> bool {
        self is Emittor
    }

    pub fn emit(&self) -> (e: bool)
        ensures
            e == self.emits(),
    {
        match self {
            Material::Emittor { .. } => true,
            _ => false,
        }
    }

    /// The attenuation and the scattered ray for a ray `r` that hit the surface at
    /// `h`, given the random input `draw`; none where the ray is absorbed.
    pub open spec fn scatter_spec(&self, r: Ray, h: HitRecord, draw: Draw) -> Option<(Color, Ray)> {
        match *self {
            Material::Lambertian { albedo } => Some((albedo, ray_from(h.p, diffuse_dir(unit_normal(h), draw.ball)))),
            Material::Metal { albedo, fuzz } => specular(albedo, r.direction, h.p, unit_normal(h), fuzz as int, draw.ball),
            Material::Glossy { albedo, mix } => if draw.pick < mix {
                specular(albedo, r.direction, h.p, unit_normal(h), 0, draw.ball)
            } else {
                Some((albedo, ray_from(h.p, diffuse_dir(unit_normal(h), draw.ball))))
            },
            Material::Dielectric { tint, ir } => Some((
                tint,
                ray_from(h.p, dielectric_dir(r.direction, unit_normal(h), h.front_face, ir as int, draw.pick as int)),
            )),
            Material::Emittor { color } => Some((color, r)),
        }
    }

    pub fn scatter(&self, r: &Ray, h: &HitRecord, draw: &Draw) -> (s: Option<(Color, Ray)>)
        requires
            self.wf(),
            r.wf(),
            valid_hit(*h, *r, i64::MIN as int, i64::MAX as int),
            draw.wf(),
        ensures
            s == self.scatter_spec(*r, *h, *draw),
            s matches Some((c, out)) ==> out.wf() && (if self.emits() {
                c.within(COLOR_MAX as int)
            } else {
                c.within(ONE as int)
            }),
    {
        proof {
            lemma_ball_bounded(draw.ball);
        }
        let n = unit(h.normal);
        match self {
            Material::Lambertian { albedo } => Some((*albedo, Ray { origin: h.p, direction: diffuse(n, draw.ball) })),
            Material::Metal { albedo, fuzz } => specular_scatter(*albedo, r, h.p, n, *fuzz, draw.ball),
            Material::Glossy { albedo, mix } => {
                if draw.pick < *mix {
                    specular_scatter(*albedo, r, h.p, n, 0, draw.ball)
                } else {
                    Some((*albedo, Ray { origin: h.p, direction: diffuse(n, draw.ball) }))
                }
            },
            Material::Dielectric { tint, ir } => {
                let d = refract_or_reflect(r.direction, n, h.front_face, *ir, draw.pick);
                Some((*tint, Ray { origin: h.p, direction: d }))
            },
            Material::Emittor { color } => Some((*color, *r)),
        }
    }
}

proof fn lemma_ball_bounded(b: Vec3)
    requires
        vdot(v(b), v(b)) <= UNIT * UNIT,
    ensures
        bounded(v(b), UNIT as int),
{
    assert(bounded(v(b), UNIT as int)) by (nonlinear_arith)
        requires
            b.x * b.x + b.y * b.y + b.z * b.z <= UNIT * UNIT,
    ;
}

/// A metal without fuzz sends a ray that meets a flat surface head-on (its direction
/// is the reverse of the surface's unit normal, where that has exact unit length)
/// straight back: the scattered ray leaves the hit point along the reversed
/// incoming direction, whatever the random input.
pub proof fn lemma_metal_reverses_at_normal_incidence(albedo: Color, r: Ray, h: HitRecord, draw: Draw)
    requires
        vdot(v(unit_normal(h)), v(unit_normal(h))) == UNIT * UNIT,
        v(r.direction) == vneg(v(unit_normal(h))),
        bounded(v(h.normal), crate::vec3::NORMAL_MAX as int),
    ensures
        (Material::Metal { albedo, fuzz: 0 }).scatter_spec(r, h, draw) == Some((albedo, Ray { origin: h.p, direction: unit_normal(h) })),
        v(unit_normal(h)) == vneg(v(r.direction)),
{
    crate::vec3::lemma_unit_bounded(v(h.normal));
    let n = v(unit_normal(h));
    let d = v(r.direction);
    let s = UNIT * UNIT;
    assert(vdot(d, d) == s) by (nonlinear_arith)
        requires
            d == vneg(n),
            vdot(n, n) == s,
    ;
    crate::vec3::lemma_sqrt_floor(s);
    assert(crate::vec3::is_sqrt(s, UNIT as int));
    crate::vec3::lemma_sqrt_unique(s, UNIT as int, sqrt_floor(s));
    vstd::arithmetic::div_mod::lemma_div_multiples_vanish(d.0, UNIT as int);
    vstd::arithmetic::div_mod::lemma_div_multiples_vanish(d.1, UNIT as int);
    vstd::arithmetic::div_mod::lemma_div_multiples_vanish(d.2, UNIT as int);
    vstd::arithmetic::div_mod::lemma_div_multiples_vanish(-d.0, UNIT as int);
    vstd::arithmetic::div_mod::lemma_div_multiples_vanish(-d.1, UNIT as int);
    vstd::arithmetic::div_mod::lemma_div_multiples_vanish(-d.2, UNIT as int);
    assert(d.0 * UNIT == UNIT * d.0 && d.1 * UNIT == UNIT * d.1 && d.2 * UNIT == UNIT * d.2) by (nonlinear_arith);
    assert(-d.0 * UNIT == UNIT * (-d.0) && -d.1 * UNIT == UNIT * (-d.1) && -d.2 * UNIT == UNIT * (-d.2)) by (nonlinear_arith);
    assert(unit_of(d) == d);
    assert(vdot(d, n) == -s) by (nonlinear_arith)
        requires
            d == vneg(n),
            vdot(n, n) == s,
    ;
    let k = 2 * vdot(d, n);
    vstd::arithmetic::div_mod::lemma_div_multiples_vanish(-2 * n.0, s);
    vstd::arithmetic::div_mod::lemma_div_multiples_vanish(-2 * n.1, s);
    vstd::arithmetic::div_mod::lemma_div_multiples_vanish(-2 * n.2, s);
    assert(k * n.0 == s * (-2 * n.0) && k * n.1 == s * (-2 * n.1) && k * n.2 == s * (-2 * n.2)) by (nonlinear_arith)
        requires
            k == -2 * s,
    ;
    assert(reflect_of(d, n) == n);
    assert(metal_dir(r.direction, unit_normal(h), 0, draw.ball) == n);
}

fn diffuse(n: Vec3, ball: Vec3) -> (d: Vec3)
    requires
        bounded(v(n), UNIT as int),
        bounded(v(ball), UNIT as int),
    ensures
        v(d) == diffuse_dir(n, ball),
        short(v(d)),
{
    let s = sum(n, ball);
    if s.x == 0 && s.y == 0 && s.z == 0 {
        n
    } else {
        s
    }
}

fn specular_scatter(albedo: Color, r: &Ray, p: Vec3, n: Vec3, fuzz: i64, ball: Vec3) -> (s: Option<(Color, Ray)>)
    requires
        r.wf(),
        bounded(v(n), UNIT as int),
        bounded(v(ball), UNIT as int),
        0 <= fuzz <= ONE,
        crate::vec3::in_reach(p),
    ensures
        s == specular(albedo, r.direction, p, n, fuzz as int, ball),
        s matches Some((c, out)) ==> c == albedo && out.wf(),
{
    let refl = reflect(unit(r.direction), n);
    proof {
        lemma_mul_bound(fuzz as int, ball.x as int, ONE as int, UNIT as int);
        lemma_mul_bound(fuzz as int, ball.y as int, ONE as int, UNIT as int);
        lemma_mul_bound(fuzz as int, ball.z as int, ONE as int, UNIT as int);
        crate::vec3::lemma_div_bound(fuzz * ball.x, ONE as int, UNIT as int);
        crate::vec3::lemma_div_bound(fuzz * ball.y, ONE as int, UNIT as int);
        crate::vec3::lemma_div_bound(fuzz * ball.z, ONE as int, UNIT as int);
    }
    let jitter = Vec3 {
        x: floor_div(fuzz as i128 * ball.x as i128, ONE as i128) as i64,
        y: floor_div(fuzz as i128 * ball.y as i128, ONE as i128) as i64,
        z: floor_div(fuzz as i128 * ball.z as i128, ONE as i128) as i64,
    };
    let dir = sum(refl, jitter);
    if dot(dir, n) > 0 {
        Some((albedo, Ray { origin: p, direction: dir }))
    } else {
        None
    }
}

/// Ratio of refractive indices across the surface (scale `ONE`): `1 / ir` entering
/// the medium, `ir` leaving it.
pub open spec fn refraction_ratio(front: bool, ir: int) -> int {
    if front {
        (ONE * ONE) / ir
    } else {
        ir
    }
}

/// Cosine of the angle between the reversed unit direction `u` and the normal `n`
/// (scale `UNIT`), clamped to `[0, UNIT]`.
pub open spec fn cos_theta(u: Triple, n: Triple) -> int {
    let c = -vdot(u, n) / (UNIT as int);
    if c < 0 {
        0
    } else if c > UNIT {
        UNIT as int
    } else {
        c
    }
}

/// Schlick's approximation of the reflectance (scale `ONE`) at cosine `cos`
/// (scale `UNIT`) for refraction ratio `ratio`.
pub open spec fn schlick(cos: int, ratio: int) -> int {
    let r0 = ((ONE - ratio) * (ONE - ratio) * ONE) / ((ONE + ratio) * (ONE + ratio));
    let x = ONE - (cos * ONE) / (UNIT as int);
    r0 + ((ONE - r0) * (x * x * x * x * x)) / (ONE * ONE * ONE * ONE * ONE)
}

/// The refracted direction by Snell's law: the part across the normal scaled by
/// the ratio, plus the part along the normal that restores unit length.
pub open spec fn refract_of(u: Triple, n: Triple, cos: int, ratio: int) -> Triple {
    let perp = (
        (ratio * (u.0 + (cos * n.0) / (UNIT as int))) / (ONE as int),
        (ratio * (u.1 + (cos * n.1) / (UNIT as int))) / (ONE as int),
        (ratio * (u.2 + (cos * n.2) / (UNIT as int))) / (ONE as int),
    );
    let m = UNIT * UNIT - vdot(perp, perp);
    let k = sqrt_floor(if m < 0 { -m } else { m });
    vadd(perp, ((-k * n.0) / (UNIT as int), (-k * n.1) / (UNIT as int), (-k * n.2) / (UNIT as int)))
}

/// The direction leaving a dielectric surface: the mirror direction under total
/// internal reflection or when `pick` falls under the reflectance, else the
/// refracted direction scaled to unit length.
pub open spec fn dielectric_dir(d: Vec3, n: Vec3, front: bool, ir: int, pick: int) -> Triple {
    let u = unit_of(v(d));
    let ratio = refraction_ratio(front, ir);
    let cos = cos_theta(u, v(n));
    let sin = sqrt_floor(UNIT * UNIT - cos * cos);
    if ratio * sin > ONE * UNIT || schlick(cos, ratio) > pick {
        reflect_of(u, v(n))
    } else {
        unit_of(refract_of(u, v(n), cos, ratio))
    }
}

fn scaled_part(ratio: i128, u: i64, cos: i128, n: i64) -> (r: i128)
    requires
        0 <= ratio <= ONE * ONE,
        -UNIT <= u <= UNIT,
        0 <= cos <= UNIT,
        -UNIT <= n <= UNIT,
    ensures
        r == (ratio * (u + (cos * n) / (UNIT as int))) / (ONE as int),
        -0x80_0000 <= r <= 0x80_0000,
{
    proof {
        lemma_mul_bound(cos as int, n as int, UNIT as int, UNIT as int);
        crate::vec3::lemma_div_bound(cos * n, UNIT as int, UNIT as int);
        lemma_mul_bound(ratio as int, u + (cos * n) / (UNIT as int), ONE * ONE, 2 * UNIT);
        crate::vec3::lemma_div_bound(ratio * (u + (cos * n) / (UNIT as int)), ONE as int, 0x80_0000);
    }
    floor_div(ratio * (u as i128 + floor_div(cos * n as i128, UNIT as i128)), ONE as i128)
}

fn along_part(k: i128, n: i64) -> (r: i64)
    requires
        0 <= k <= 0x200_0000,
        -UNIT <= n <= UNIT,
    ensures
        r == (-k * n) / (UNIT as int),
        -0x200_0000 <= r <= 0x200_0000,
{
    proof {
        lemma_mul_bound(-k, n as int, 0x200_0000, UNIT as int);
        crate::vec3::lemma_div_bound(-k * n, UNIT as int, 0x200_0000);
    }
    floor_div(-k * n as i128, UNIT as i128) as i64
}

fn refract_or_reflect(d: Vec3, n: Vec3, front: bool, ir: i64, pick: i64) -> (r: Vec3)
    requires
        crate::vec3::in_box(d),
        bounded(v(n), UNIT as int),
        1 <= ir <= 100 * ONE,
    ensures
        v(r) == dielectric_dir(d, n, front, ir as int, pick as int),
        short(v(r)),
{
    let u = unit(d);
    let ratio: i128 = if front { (ONE as i128 * ONE as i128) / ir as i128 } else { ir as i128 };
    proof {
        lemma_dot_bound(v(u), v(n), UNIT as int, UNIT as int);
        if front {
            vstd::arithmetic::div_mod::lemma_div_is_ordered_by_denominator(ONE * ONE, 1, ir as int);
            vstd::arithmetic::div_mod::lemma_div_pos_is_pos(ONE * ONE, ir as int);
        }
    }
    let c = floor_div(-dot(u, n), UNIT as i128);
    let cos: i128 = if c < 0 { 0 } else if c > UNIT as i128 { UNIT as i128 } else { c };
    proof {
        assert(0 <= UNIT * UNIT - cos * cos <= UNIT * UNIT) by (nonlinear_arith)
            requires
                0 <= cos <= UNIT,
        ;
    }
    let sin = isqrt((UNIT as i128 * UNIT as i128 - cos * cos) as u128) as i128;
    proof {
        crate::vec3::lemma_sqrt_floor(UNIT * UNIT - cos * cos);
        assert(sin <= UNIT) by (nonlinear_arith)
            requires
                sin * sin <= UNIT * UNIT,
                sin >= 0,
        ;
        lemma_mul_bound(ratio as int, sin as int, ONE * ONE, UNIT as int);
    }
    let tir = ratio * sin > ONE as i128 * UNIT as i128;
    let one = ONE as i128;
    assert(0 <= ratio <= ONE * ONE);
    proof {
        lemma_mul_bound(one - ratio, one - ratio, 0x10_0000, 0x10_0000);
        lemma_mul_bound((one - ratio) * (one - ratio), one as int, 0x100_0000_0000, 0x400);
        lemma_mul_bound(one + ratio, one + ratio, 0x10_0000, 0x10_0000);
        assert(0 <= (one - ratio) * (one - ratio) * one <= (one + ratio) * (one + ratio) * one) by (nonlinear_arith)
            requires
                0 <= ratio <= ONE * ONE,
                one == ONE,
        ;
        assert((one + ratio) * (one + ratio) >= 1) by (nonlinear_arith)
            requires
                0 <= ratio,
                one == ONE,
        ;
    }
    let r0 = ((one - ratio) * (one - ratio) * one) / ((one + ratio) * (one + ratio));
    let x = one - floor_div(cos * one, UNIT as i128);
    proof {
        vstd::arithmetic::div_mod::lemma_div_is_ordered(
            (one - ratio) * (one - ratio) * one,
            (one + ratio) * (one + ratio) * one,
            (one + ratio) * (one + ratio),
        );
        vstd::arithmetic::div_mod::lemma_div_multiples_vanish(one as int, (one + ratio) * (one + ratio));
        assert((one + ratio) * (one + ratio) * one == one * ((one + ratio) * (one + ratio))) by (nonlinear_arith);
        vstd::arithmetic::div_mod::lemma_div_pos_is_pos((one - ratio) * (one - ratio) * one, (one + ratio) * (one + ratio));
        assert(0 <= cos * one <= UNIT * ONE) by (nonlinear_arith)
            requires
                0 <= cos <= UNIT,
                one == ONE,
        ;
        crate::vec3::lemma_div_bound(cos * one, UNIT as int, ONE as int);
        vstd::arithmetic::div_mod::lemma_div_pos_is_pos(cos * one, UNIT as int);
        assert(0 <= x * x <= ONE * ONE && 0 <= x * x * x <= ONE * ONE * ONE
            && 0 <= x * x * x * x <= ONE * ONE * ONE * ONE
            && 0 <= x * x * x * x * x <= ONE * ONE * ONE * ONE * ONE) by (nonlinear_arith)
            requires
                0 <= x <= ONE,
        ;
        assert(0 <= (one - r0) * (x * x * x * x * x) <= ONE * (ONE * ONE * ONE * ONE * ONE)) by (nonlinear_arith)
            requires
                0 <= one - r0 <= ONE,
                0 <= x * x * x * x * x <= ONE * ONE * ONE * ONE * ONE,
        ;
    }
    let reflectance = r0 + (one - r0) * (x * x * x * x * x) / (one * one * one * one * one);
    if tir || reflectance > pick as i128 {
        reflect(u, n)
    } else {
        let px = scaled_part(ratio, u.x, cos, n.x);
        let py = scaled_part(ratio, u.y, cos, n.y);
        let pz = scaled_part(ratio, u.z, cos, n.z);
        proof {
            lemma_mul_bound(px as int, px as int, 0x80_0000, 0x80_0000);
            lemma_mul_bound(py as int, py as int, 0x80_0000, 0x80_0000);
            lemma_mul_bound(pz as int, pz as int, 0x80_0000, 0x80_0000);
        }
        let m = UNIT as i128 * UNIT as i128 - (px * px + py * py + pz * pz);
        let mm = if m < 0 { -m } else { m };
        assert(mm <= 0x4_0000_0000_0000);
        let k = isqrt(mm as u128) as i128;
        proof {
            crate::vec3::lemma_sqrt_floor(mm as int);
            assert(k <= 0x200_0000) by (nonlinear_arith)
                requires
                    k * k <= mm,
                    mm <= 0x4_0000_0000_0000,
                    k >= 0,
            ;
        }
        let refr = Vec3 {
            x: px as i64 + along_part(k, n.x),
            y: py as i64 + along_part(k, n.y),
            z: pz as i64 + along_part(k, n.z),
        };
        unit(refr)
    }
}

} // verus!
