use pathtrace::hit::HitRecord;
use pathtrace::material::{Color, Draw, Material};
use pathtrace::ray::Ray;
use pathtrace::sample::{channel_byte, random_draw, random_draws, sample};
use pathtrace::sphere::{Plane, Sphere, Triangle};
use pathtrace::vec3::{isqrt, Vec3};
use pathtrace::world::{ray_color, Mesh, Shape, World, T_MAX, T_MIN};

fn ray(o: (i64, i64, i64), d: (i64, i64, i64)) -> Ray {
    Ray::new(Vec3::new(o.0, o.1, o.2), Vec3::new(d.0, d.1, d.2))
}

fn no_draws(n: usize) -> Vec<Draw> {
    vec![Draw { ball: Vec3::new(0, 0, 0), pick: 0 }; n]
}

fn emitter_world(color: Color) -> World {
    let mut w = World::new();
    let m = w.add_material(Material::Emittor { color });
    w.push(Shape::Sphere(Sphere::new(Vec3::new(0, 0, -1000), 500, m)));
    w
}

#[test]
fn sphere_head_on_hit() {
    let s = Sphere::new(Vec3::new(0, 0, -1000), 500, 0);
    let r = ray((0, 0, 0), (0, 0, -1000));
    let h = s.hit(&r, T_MIN, T_MAX).expect("the ray meets the sphere");
    assert_eq!(h.t, 500);
    assert_eq!(h.p, Vec3::new(0, 0, -500));
    assert_eq!(h.normal, Vec3::new(0, 0, 500));
    assert!(h.front_face);
}

#[test]
fn sphere_far_root_from_inside() {
    let s = Sphere::new(Vec3::new(0, 0, 0), 500, 0);
    let r = ray((0, 0, 0), (0, 0, -1000));
    let h = s.hit(&r, T_MIN, T_MAX).unwrap();
    assert_eq!(h.t, 500);
    assert_eq!(h.p, Vec3::new(0, 0, -500));
    assert_eq!(h.normal, Vec3::new(0, 0, 500));
    assert!(!h.front_face);
}

#[test]
fn sphere_negative_radius_flips_normal() {
    let s = Sphere::new(Vec3::new(0, 0, -1000), -500, 0);
    let r = ray((0, 0, 0), (0, 0, -1000));
    let h = s.hit(&r, T_MIN, T_MAX).unwrap();
    assert_eq!(h.normal, Vec3::new(0, 0, 500));
    assert!(!h.front_face);
}

#[test]
fn sphere_miss_and_interval() {
    let s = Sphere::new(Vec3::new(0, 0, -1000), 500, 0);
    assert!(s.hit(&ray((0, 2000, 0), (0, 0, -1000)), T_MIN, T_MAX).is_none());
    assert!(s.hit(&ray((0, 0, 0), (0, 0, -1000)), T_MIN, 400).is_none());
    assert!(s.hit(&ray((0, 0, 0), (0, 0, 0)), T_MIN, T_MAX).is_none());
}

#[test]
fn plane_hit_from_above() {
    let p = Plane::new(Vec3::new(0, -500, 0), Vec3::new(0, 1000, 0), 3);
    let h = p.hit(&ray((0, 0, 0), (0, -1000, 0)), T_MIN, T_MAX).unwrap();
    assert_eq!(h.t, 500);
    assert_eq!(h.p, Vec3::new(0, -500, 0));
    assert_eq!(h.normal, Vec3::new(0, 1000, 0));
    assert!(h.front_face);
    assert_eq!(h.mat, 3);
}

#[test]
fn zero_radius_sphere_never_hits() {
    let s = Sphere::new(Vec3::new(0, 0, -1000), 0, 0);
    assert!(s.hit(&ray((0, 0, 0), (0, 0, -1000)), T_MIN, T_MAX).is_none());
    assert!(s.hit(&ray((0, 0, -2000), (0, 0, 1000)), T_MIN, T_MAX).is_none());
}

#[test]
fn plane_grazing_ray_meets_front_face() {
    let p = Plane::new(Vec3::new(0, 0, 0), Vec3::new(3, 1000, 0), 0);
    let h = p.hit(&ray((0, 10, 0), (-4096, 12, 0)), T_MIN, T_MAX).unwrap();
    assert!(h.front_face);
    assert_eq!(h.normal, Vec3::new(3, 1000, 0));
    assert_eq!(h.t, 34722);
    assert_eq!(h.p, Vec3::new(-142222, 426, 0));
}

#[test]
fn plane_far_crossing_hits() {
    let p = Plane::new(Vec3::new(0, -262144, 0), Vec3::new(0, 1000, 0), 0);
    let h = p.hit(&ray((0, 0, 0), (262144, -1, 0)), T_MIN, T_MAX).unwrap();
    assert_eq!(h.t, 262_144_000);
    assert_eq!(h.p, Vec3::new(68_719_476_736, -262144, 0));
    assert!(h.front_face);
}

#[test]
fn triangle_reversed_winding_flips_only_face() {
    let (v0, v1, v2) = (Vec3::new(0, 0, -2000), Vec3::new(1000, 0, -2000), Vec3::new(0, 1000, -3000));
    let a = Triangle::new(v0, v1, v2, 0);
    let b = Triangle::new(v0, v2, v1, 0);
    for o in [(200, 200, 0), (100, 300, 500), (-50, 10, 0)] {
        let r = ray(o, (3, -7, -1000));
        let (ha, hb) = (a.hit(&r, T_MIN, T_MAX), b.hit(&r, T_MIN, T_MAX));
        assert_eq!(ha.is_some(), hb.is_some());
        if let (Some(ha), Some(hb)) = (ha, hb) {
            assert_eq!((ha.t, ha.p, ha.normal), (hb.t, hb.p, hb.normal));
            assert_eq!(ha.front_face, !hb.front_face);
        }
    }
    assert!(a.hit(&ray((200, 200, 0), (3, -7, -1000)), T_MIN, T_MAX).is_some());
}

#[test]
fn plane_parallel_never_hits() {
    let p = Plane::new(Vec3::new(0, -500, 0), Vec3::new(0, 1000, 0), 0);
    for y in [-2000, -501, 0, 700] {
        assert!(p.hit(&ray((10, y, 20), (1000, 0, -300)), T_MIN, T_MAX).is_none());
    }
}

#[test]
fn triangle_hit_and_miss() {
    let t = Triangle::new(Vec3::new(0, 0, -2000), Vec3::new(1000, 0, -2000), Vec3::new(0, 1000, -2000), 1);
    let h = t.hit(&ray((200, 200, 0), (0, 0, -1000)), T_MIN, T_MAX).unwrap();
    assert_eq!(h.t, 2000);
    assert_eq!(h.p, Vec3::new(200, 200, -2000));
    assert_eq!(h.normal, Vec3::new(0, 0, 1_000_000));
    assert!(h.front_face);
    assert!(t.hit(&ray((900, 900, 0), (0, 0, -1000)), T_MIN, T_MAX).is_none());
    assert!(t.hit(&ray((200, 200, 0), (0, 0, -1000)), T_MIN, 1999).is_none());
}

#[test]
fn mesh_and_world_keep_closest() {
    let mut mesh = Mesh::new();
    mesh.push(Triangle::new(Vec3::new(-1000, -1000, -3000), Vec3::new(1000, -1000, -3000), Vec3::new(0, 1000, -3000), 0));
    mesh.push(Triangle::new(Vec3::new(-1000, -1000, -2000), Vec3::new(1000, -1000, -2000), Vec3::new(0, 1000, -2000), 1));
    let r = ray((0, 0, 0), (0, 0, -1000));
    let h = mesh.hit(&r, T_MIN, T_MAX).unwrap();
    assert_eq!(h.t, 2000);
    assert_eq!(h.mat, 1);

    let mut w = World::new();
    let a = w.add_material(Material::Lambertian { albedo: Color::new(500, 500, 500) });
    let b = w.add_material(Material::Lambertian { albedo: Color::new(100, 100, 100) });
    w.push(Shape::Mesh(mesh));
    w.push(Shape::Sphere(Sphere::new(Vec3::new(0, 0, -1000), 500, a)));
    w.push(Shape::Plane(Plane::new(Vec3::new(0, 0, -5000), Vec3::new(0, 0, 1000), b)));
    let h = w.hit(&r, T_MIN, T_MAX).unwrap();
    assert_eq!(h.t, 500);
    assert_eq!(h.mat, a);
    assert!(w.hit(&ray((0, 0, 0), (0, 0, 1000)), T_MIN, T_MAX).is_none());
}

#[test]
fn hit_twice_gives_same_record() {
    let w = emitter_world(Color::new(100, 1000, 1000));
    let r = ray((3, -7, 0), (5, 2, -1000));
    let first: Option<HitRecord> = w.hit(&r, T_MIN, T_MAX);
    let second = w.hit(&r, T_MIN, T_MAX);
    assert!(first.is_some());
    assert_eq!(first, second);
}

#[test]
fn depth_zero_is_black() {
    let w = emitter_world(Color::new(100, 1000, 1000));
    let c = ray_color(&ray((0, 0, 0), (0, 0, -1000)), &w, 0, &no_draws(0));
    assert_eq!(c, Color::new(0, 0, 0));
}

#[test]
fn emitter_color_returned_at_any_depth() {
    let color = Color::new(100, 1000, 1000);
    let w = emitter_world(color);
    for depth in [1u64, 2, 10] {
        let c = ray_color(&ray((0, 0, 0), (0, 0, -1000)), &w, depth, &no_draws(depth as usize));
        assert_eq!(c, color);
    }
}

#[test]
fn escaping_ray_is_black() {
    let w = emitter_world(Color::new(100, 1000, 1000));
    let c = ray_color(&ray((0, 0, 0), (0, 0, 1000)), &w, 5, &no_draws(5));
    assert_eq!(c, Color::new(0, 0, 0));
}

#[test]
fn diffuse_bounce_into_light_is_attenuated() {
    let mut w = World::new();
    let ground = w.add_material(Material::Lambertian { albedo: Color::new(500, 250, 1000) });
    let light = w.add_material(Material::Emittor { color: Color::new(1000, 1000, 400) });
    w.push(Shape::Plane(Plane::new(Vec3::new(0, 0, 0), Vec3::new(0, 1000, 0), ground)));
    w.push(Shape::Sphere(Sphere::new(Vec3::new(0, 3000, 0), 1000, light)));
    let c = ray_color(&ray((0, 1000, 0), (0, -1000, 0)), &w, 2, &no_draws(2));
    assert_eq!(c, Color::new(500, 250, 400));
    let c = ray_color(&ray((0, 1000, 0), (0, -1000, 0)), &w, 1, &no_draws(1));
    assert_eq!(c, Color::new(0, 0, 0));
}

fn record(normal: Vec3, front_face: bool) -> HitRecord {
    HitRecord { t: 1000, p: Vec3::new(0, 0, 0), normal, front_face, mat: 0 }
}

#[test]
fn metal_without_fuzz_reverses_head_on_ray() {
    let albedo = Color::new(800, 600, 200);
    let m = Material::Metal { albedo, fuzz: 0 };
    let r = ray((0, 0, 4096), (0, 0, -4096));
    let d = Draw { ball: Vec3::new(1000, -2000, 3000), pick: 5 };
    let (c, out) = m.scatter(&r, &record(Vec3::new(0, 0, 4096), true), &d).unwrap();
    assert_eq!(c, albedo);
    assert_eq!(out.origin, Vec3::new(0, 0, 0));
    assert_eq!(out.direction, Vec3::new(0, 0, 4096));
}

#[test]
fn metal_absorbs_ray_pushed_into_surface() {
    let m = Material::Metal { albedo: Color::new(800, 600, 200), fuzz: 1000 };
    let r = ray((-4096, 0, 1), (4096, 0, -1));
    let d = Draw { ball: Vec3::new(0, 0, -4096), pick: 0 };
    assert!(m.scatter(&r, &record(Vec3::new(0, 0, 4096), true), &d).is_none());
}

#[test]
fn lambertian_adds_ball_to_normal() {
    let albedo = Color::new(800, 800, 0);
    let m = Material::Lambertian { albedo };
    let r = ray((0, 0, 1000), (0, 0, -1000));
    let (c, out) = m.scatter(&r, &record(Vec3::new(0, 0, 4096), true), &Draw { ball: Vec3::new(100, 0, 0), pick: 0 }).unwrap();
    assert_eq!(c, albedo);
    assert_eq!(out.direction, Vec3::new(100, 0, 4096));
    let (_, out) = m.scatter(&r, &record(Vec3::new(0, 0, 4096), true), &Draw { ball: Vec3::new(0, 0, -4096), pick: 0 }).unwrap();
    assert_eq!(out.direction, Vec3::new(0, 0, 4096));
}

#[test]
fn glossy_picks_mirror_or_diffuse() {
    let m = Material::Glossy { albedo: Color::new(100, 200, 500), mix: 800 };
    let r = ray((-4096, 0, 4096), (4096, 0, -4096));
    let h = record(Vec3::new(0, 0, 4096), true);
    let (_, mirror) = m.scatter(&r, &h, &Draw { ball: Vec3::new(0, 100, 0), pick: 10 }).unwrap();
    assert_eq!(mirror.direction, Vec3::new(2896, 0, 2896));
    let (_, diffuse) = m.scatter(&r, &h, &Draw { ball: Vec3::new(0, 100, 0), pick: 900 }).unwrap();
    assert_eq!(diffuse.direction, Vec3::new(0, 100, 4096));
}

#[test]
fn dielectric_refracts_or_reflects_head_on() {
    let tint = Color::new(1000, 0, 100);
    let m = Material::Dielectric { tint, ir: 1500 };
    let r = ray((0, 0, 4096), (0, 0, -4096));
    let h = record(Vec3::new(0, 0, 4096), true);
    let (c, through) = m.scatter(&r, &h, &Draw { ball: Vec3::new(0, 0, 0), pick: 999 }).unwrap();
    assert_eq!(c, tint);
    assert_eq!(through.direction, Vec3::new(0, 0, -4096));
    let (_, back) = m.scatter(&r, &h, &Draw { ball: Vec3::new(0, 0, 0), pick: 0 }).unwrap();
    assert_eq!(back.direction, Vec3::new(0, 0, 4096));
}

#[test]
fn dielectric_total_internal_reflection() {
    let m = Material::Dielectric { tint: Color::new(1000, 1000, 1000), ir: 1500 };
    let r = ray((-4096, 0, 1000), (4096, 0, -1000));
    let h = record(Vec3::new(0, 0, 4096), false);
    let (_, out) = m.scatter(&r, &h, &Draw { ball: Vec3::new(0, 0, 0), pick: 999 }).unwrap();
    assert!(out.direction.z > 0);
    assert!(out.direction.x > 0);
}

#[test]
fn emittor_emits_its_color() {
    let color = Color::new(400, 400, 400);
    let m = Material::Emittor { color };
    assert!(m.emit());
    assert!(!Material::Lambertian { albedo: color }.emit());
    let r = ray((0, 0, 0), (0, 0, -1000));
    let (c, _) = m.scatter(&r, &record(Vec3::new(0, 0, 4096), true), &no_draws(1)[0]).unwrap();
    assert_eq!(c, color);
}

#[test]
fn integer_square_root() {
    assert_eq!(isqrt(0), 0);
    assert_eq!(isqrt(15), 3);
    assert_eq!(isqrt(16), 4);
    assert_eq!(isqrt(250_000_000_000), 500_000);
}

#[test]
fn channel_bytes_gamma_and_clamp() {
    assert_eq!(channel_byte(1000, 4), 128);
    assert_eq!(channel_byte(4000, 4), 255);
    assert_eq!(channel_byte(0, 7), 0);
    assert_eq!(Color::new(1000, 4000, 0).to_bytes(4), (128, 255, 0));
}

#[test]
fn running_sum_of_samples() {
    let mut sum = Color::new(0, 0, 0);
    sum.add_sample(Color::new(1, 2, 3));
    sum.add_sample(Color::new(10, 20, 30));
    assert_eq!(sum, Color::new(11, 22, 33));
}

#[test]
fn random_draws_lie_in_ball() {
    let ds = random_draws(200);
    assert_eq!(ds.len(), 200);
    for d in ds.iter().chain(std::iter::once(&random_draw())) {
        let b = d.ball;
        assert!(b.x * b.x + b.y * b.y + b.z * b.z <= 4096 * 4096);
        assert!(0 <= d.pick && d.pick < 1000);
    }
}

#[test]
fn random_draws_vary() {
    let ds = random_draws(200);
    assert!(ds.iter().any(|d| d.pick != ds[0].pick));
    assert!(ds.iter().any(|d| d.ball != ds[0].ball));
    assert!(ds.iter().any(|d| d.ball != Vec3::new(0, 0, 0)));
}

fn lit_ground() -> World {
    let mut w = World::new();
    let ground = w.add_material(Material::Lambertian { albedo: Color::new(500, 500, 500) });
    let light = w.add_material(Material::Emittor { color: Color::new(1000, 1000, 1000) });
    w.push(Shape::Plane(Plane::new(Vec3::new(0, 0, 0), Vec3::new(0, 1000, 0), ground)));
    w.push(Shape::Sphere(Sphere::new(Vec3::new(0, 3000, 0), 2000, light)));
    w
}

fn spread_of_means(w: &World, r: &Ray, samples: u64, runs: usize) -> f64 {
    let mut means = Vec::new();
    for _ in 0..runs {
        let mut sum = 0i64;
        for _ in 0..samples {
            sum += sample(r, w, 4).r;
        }
        means.push(sum as f64 / samples as f64);
    }
    let mean = means.iter().sum::<f64>() / runs as f64;
    means.iter().map(|m| (m - mean) * (m - mean)).sum::<f64>() / runs as f64
}

#[test]
fn more_samples_less_variance() {
    let w = lit_ground();
    let r = ray((0, 500, 3000), (0, -500, -1000));
    let few = spread_of_means(&w, &r, 16, 40);
    let many = spread_of_means(&w, &r, 1024, 40);
    assert!(few > 0.0);
    assert!(many < few);
}
