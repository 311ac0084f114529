//! Scenes: meshes and worlds of primitives, the closest-hit reduction over them,
//! and the recursive radiance estimator.
use vstd::prelude::*;
use crate::ray::Ray;
use crate::vec3::COORD_MAX;
use crate::hit::{valid_hit, HitRecord};
use crate::sphere::{
    lemma_plane_hits_valid, lemma_sphere_hits_valid, lemma_triangle_hits_valid, Plane, Sphere, Triangle,
};
use crate::material::{attenuate, black, mul_color, Color, Draw, Material, COLOR_MAX};

verus! {

/// Smallest ray parameter at which a scattered ray may hit a surface, in units of
/// `1 / T_SCALE`; it keeps a ray from hitting the surface it leaves.
pub const T_MIN: i64 = 1;

/// The closest of a sequence of possible hits; a later hit wins a tie.
pub open spec fn closest(hits: Seq<Option<HitRecord>>) -> Option<HitRecord>
    decreases hits.len(),
{
    if hits.len() == 0 {
        None
    } else {
        let best = closest(hits.drop_last());
        match hits.last() {
            None => best,
            Some(h) => match best {
                Some(b) => if h.t <= b.t {
                    Some(h)
                } else {
                    Some(b)
                },
                None => Some(h),
            },
        }
    }
}

/// The closest hit is one of the hits, and no hit is nearer; there is none exactly
/// when every member misses.
pub proof fn lemma_closest(hits: Seq<Option<HitRecord>>)
    ensures
        closest(hits) is None <==> forall|i: int| 0 <= i < hits.len() ==> hits[i] is None,
        closest(hits) matches Some(b) ==> (exists|i: int| 0 <= i < hits.len() && hits[i] == Some(b)),
        closest(hits) matches Some(b) ==> (forall|i: int|
            0 <= i < hits.len() && hits[i] is Some ==> b.t <= hits[i]->0.t),
    decreases hits.len(),
{
    if hits.len() > 0 {
        let init = hits.drop_last();
        lemma_closest(init);
        assert(forall|i: int| 0 <= i < init.len() ==> hits[i] == init[i]);
        if closest(hits) is None {
            assert forall|i: int| 0 <= i < hits.len() implies hits[i] is None by {
                if i < init.len() {
                    assert(hits[i] == init[i]);
                }
            }
        }
        if let Some(b) = closest(hits) {
            if hits.last() == Some(b) {
                assert(hits[hits.len() - 1] == Some(b));
            } else {
                let i = choose|i: int| 0 <= i < init.len() && init[i] == Some(b);
                assert(hits[i] == Some(b));
            }
        }
    }
}

/// An unordered collection of triangles.
#[derive(Clone, Debug)]
pub struct Mesh {
    pub tris: Vec<Triangle>,
}

impl Mesh {
    pub fn new() -> (m: Mesh)
        ensures
            m.tris@.len() == 0,
    {
        Mesh { tris: Vec::new() }
    }

    pub fn push(&mut self, t: Triangle)
        ensures
            final(self).tris@ == old(self).tris@.push(t),
    {
        self.tris.push(t);
    }

    pub open spec fn wf(&self) -> bool {
        forall|i: int| 0 <= i < self.tris@.len() ==> #[trigger] self.tris@[i].wf()
    }

    /// Every triangle refers to one of the first `n_mats` materials.
    pub open spec fn mats_below(&self, n_mats: nat) -> bool {
        forall|i: int| 0 <= i < self.tris@.len() ==> #[trigger] self.tris@[i].mat < n_mats
    }

    /// Whether every triangle lies in the coordinate box and refers to one of the
    /// first `n_mats` materials.
    pub fn is_valid(&self, n_mats: usize) -> (b: bool)
        ensures
            b == (self.wf() && self.mats_below(n_mats as nat)),
    {
        let mut i: usize = 0;
        while i < self.tris.len()
            invariant
                i <= self.tris@.len(),
                forall|j: int| 0 <= j < i ==> #[trigger] self.tris@[j].wf(),
                forall|j: int| 0 <= j < i ==> #[trigger] self.tris@[j].mat < n_mats,
            decreases self.tris@.len() - i,
        {
            let t = &self.tris[i];
            if !(t.v0.in_range() && t.v1.in_range() && t.v2.in_range() && t.mat < n_mats) {
                assert(!self.tris@[i as int].wf() || !(self.tris@[i as int].mat < n_mats));
                return false;
            }
            i += 1;
        }
        true
    }

    pub open spec fn hits(&self, r: Ray, t_min: int, t_max: int) -> Seq<Option<HitRecord>> {
        self.tris@.map_values(|t: Triangle| t.hit_spec(r, t_min, t_max))
    }

    /// The closest hit among the triangles within `[t_min, t_max]`.
    pub fn hit(&self, r: &Ray, t_min: i64, t_max: i64) -> (h: Option<HitRecord>)
        requires
            self.wf(),
            r.wf(),
        ensures
            h == closest(self.hits(*r, t_min as int, t_max as int)),
            h matches Some(rec) ==> valid_hit(rec, *r, t_min as int, t_max as int),
    {
        let ghost hits = self.hits(*r, t_min as int, t_max as int);
        let mut best: Option<HitRecord> = None;
        let mut i: usize = 0;
        while i < self.tris.len()
            invariant
                i <= self.tris@.len(),
                hits == self.hits(*r, t_min as int, t_max as int),
                self.wf(),
                r.wf(),
                best == closest(hits.take(i as int)),
                best matches Some(rec) ==> valid_hit(rec, *r, t_min as int, t_max as int),
            decreases self.tris@.len() - i,
        {
            assert(hits.take(i as int + 1).drop_last() == hits.take(i as int));
            let h = self.tris[i].hit(r, t_min, t_max);
            match h {
                Some(rec) => {
                    match best {
                        Some(b) => {
                            if rec.t <= b.t {
                                best = Some(rec);
                            }
                        },
                        None => {
                            best = Some(rec);
                        },
                    }
                },
                None => {},
            }
            i += 1;
        }
        assert(hits.take(self.tris@.len() as int) == hits);
        best
    }
}

/// A member of a world.
#[derive(Clone, Debug)]
pub enum Shape {
    Sphere(Sphere),
    Plane(Plane),
    Triangle(Triangle),
    Mesh(Mesh),
}

impl Shape {
    pub open spec fn wf(&self) -> bool {
        match *self {
            Shape::Sphere(s) => s.wf(),
            Shape::Plane(p) => p.wf(),
            Shape::Triangle(t) => t.wf(),
            Shape::Mesh(m) => m.wf(),
        }
    }

    /// The shape's surfaces refer to the first `n_mats` materials only.
    pub open spec fn mats_below(&self, n_mats: nat) -> bool {
        match *self {
            Shape::Sphere(s) => s.mat < n_mats,
            Shape::Plane(p) => p.mat < n_mats,
            Shape::Triangle(t) => t.mat < n_mats,
            Shape::Mesh(m) => m.mats_below(n_mats),
        }
    }

    pub open spec fn hit_spec(&self, r: Ray, t_min: int, t_max: int) -> Option<HitRecord> {
        match *self {
            Shape::Sphere(s) => s.hit_spec(r, t_min, t_max),
            Shape::Plane(p) => p.hit_spec(r, t_min, t_max),
            Shape::Triangle(t) => t.hit_spec(r, t_min, t_max),
            Shape::Mesh(m) => closest(m.hits(r, t_min, t_max)),
        }
    }

    pub fn hit(&self, r: &Ray, t_min: i64, t_max: i64) -> (h: Option<HitRecord>)
        requires
            self.wf(),
            r.wf(),
        ensures
            h == self.hit_spec(*r, t_min as int, t_max as int),
            h matches Some(rec) ==> valid_hit(rec, *r, t_min as int, t_max as int),
    {
        match self {
            Shape::Sphere(s) => s.hit(r, t_min, t_max),
            Shape::Plane(p) => p.hit(r, t_min, t_max),
            Shape::Triangle(t) => t.hit(r, t_min, t_max),
            Shape::Mesh(m) => m.hit(r, t_min, t_max),
        }
    }
}

/// A scene: its members and the materials that they refer to by index.
#[derive(Clone, Debug)]
pub struct World {
    pub shapes: Vec<Shape>,
    pub materials: Vec<Material>,
}

impl World {
    pub fn new() -> (w: World)
        ensures
            w.shapes@.len() == 0,
            w.materials@.len() == 0,
    {
        World { shapes: Vec::new(), materials: Vec::new() }
    }

    /// Adds a member.
    pub fn push(&mut self, s: Shape)
        ensures
            final(self).shapes@ == old(self).shapes@.push(s),
            final(self).materials@ == old(self).materials@,
    {
        self.shapes.push(s);
    }

    /// Adds a material and returns its index, by which surfaces refer to it.
    pub fn add_material(&mut self, m: Material) -> (i: usize)
        requires
            old(self).materials@.len() < usize::MAX,
        ensures
            final(self).materials@ == old(self).materials@.push(m),
            final(self).shapes@ == old(self).shapes@,
            i == old(self).materials@.len(),
    {
        let i = self.materials.len();
        self.materials.push(m);
        i
    }

    pub open spec fn wf(&self) -> bool {
        &&& forall|i: int| 0 <= i < self.shapes@.len() ==> #[trigger] self.shapes@[i].wf()
        &&& forall|i: int| 0 <= i < self.shapes@.len() ==> #[trigger] self.shapes@[i].mats_below(self.materials@.len())
        &&& forall|i: int| 0 <= i < self.materials@.len() ==> #[trigger] self.materials@[i].wf()
    }

    /// Whether the scene is well formed: every surface lies in the coordinate box
    /// and refers to a material of the scene, and every material is in range.
    pub fn is_valid(&self) -> (b: bool)
        ensures
            b == self.wf(),
    {
        let n = self.materials.len();
        let mut i: usize = 0;
        while i < self.shapes.len()
            invariant
                n == self.materials@.len(),
                i <= self.shapes@.len(),
                forall|j: int| 0 <= j < i ==> #[trigger] self.shapes@[j].wf(),
                forall|j: int| 0 <= j < i ==> #[trigger] self.shapes@[j].mats_below(n as nat),
            decreases self.shapes@.len() - i,
        {
            let ok = match &self.shapes[i] {
                Shape::Sphere(s) => s.center.in_range() && -COORD_MAX <= s.radius && s.radius <= COORD_MAX && s.mat < n,
                Shape::Plane(p) => p.center.in_range() && p.normal.in_range() && p.mat < n,
                Shape::Triangle(t) => t.v0.in_range() && t.v1.in_range() && t.v2.in_range() && t.mat < n,
                Shape::Mesh(m) => m.is_valid(n),
            };
            if !ok {
                assert(!self.shapes@[i as int].wf() || !self.shapes@[i as int].mats_below(n as nat));
                return false;
            }
            i += 1;
        }
        let mut k: usize = 0;
        while k < n
            invariant
                n == self.materials@.len(),
                k <= n,
                forall|j: int| 0 <= j < self.shapes@.len() ==> #[trigger] self.shapes@[j].wf(),
                forall|j: int| 0 <= j < self.shapes@.len() ==> #[trigger] self.shapes@[j].mats_below(n as nat),
                forall|j: int| 0 <= j < k ==> #[trigger] self.materials@[j].wf(),
            decreases n - k,
        {
            if !self.materials[k].is_valid() {
                assert(!self.materials@[k as int].wf());
                return false;
            }
            k += 1;
        }
        true
    }

    pub open spec fn hits(&self, r: Ray, t_min: int, t_max: int) -> Seq<Option<HitRecord>> {
        self.shapes@.map_values(|s: Shape| s.hit_spec(r, t_min, t_max))
    }

    /// The closest hit among all members within `[t_min, t_max]`. Each member is
    /// asked over the whole interval and the nearest answer is kept; a later member
    /// wins a tie.
    pub fn hit(&self, r: &Ray, t_min: i64, t_max: i64) -> (h: Option<HitRecord>)
        requires
            self.wf(),
            r.wf(),
        ensures
            h == closest(self.hits(*r, t_min as int, t_max as int)),
            h matches Some(rec) ==> valid_hit(rec, *r, t_min as int, t_max as int),
            h matches Some(rec) ==> rec.mat < self.materials@.len(),
    {
        let ghost hits = self.hits(*r, t_min as int, t_max as int);
        let mut best: Option<HitRecord> = None;
        let mut i: usize = 0;
        while i < self.shapes.len()
            invariant
                i <= self.shapes@.len(),
                hits == self.hits(*r, t_min as int, t_max as int),
                self.wf(),
                r.wf(),
                best == closest(hits.take(i as int)),
                best matches Some(rec) ==> valid_hit(rec, *r, t_min as int, t_max as int),
                best matches Some(rec) ==> rec.mat < self.materials@.len(),
            decreases self.shapes@.len() - i,
        {
            assert(hits.take(i as int + 1).drop_last() == hits.take(i as int));
            proof {
                lemma_shape_mat(self.shapes@[i as int], *r, t_min as int, t_max as int, self.materials@.len());
            }
            let h = self.shapes[i].hit(r, t_min, t_max);
            match h {
                Some(rec) => {
                    match best {
                        Some(b) => {
                            if rec.t <= b.t {
                                best = Some(rec);
                            }
                        },
                        None => {
                            best = Some(rec);
                        },
                    }
                },
                None => {},
            }
            i += 1;
        }
        assert(hits.take(self.shapes@.len() as int) == hits);
        best
    }
}

/// Every hit that a member of a world reports lies within the interval, its point
/// is the ray's point at its parameter, and its normal faces against the ray.
pub proof fn lemma_shape_hits_valid(s: Shape, r: Ray, t_min: int, t_max: int)
    requires
        s.wf(),
        r.wf(),
        i64::MIN <= t_min,
        t_max <= i64::MAX,
    ensures
        s.hit_spec(r, t_min, t_max) matches Some(h) ==> valid_hit(h, r, t_min, t_max),
{
    match s {
        Shape::Sphere(x) => lemma_sphere_hits_valid(x, r, t_min, t_max),
        Shape::Plane(x) => lemma_plane_hits_valid(x, r, t_min, t_max),
        Shape::Triangle(x) => lemma_triangle_hits_valid(x, r, t_min, t_max),
        Shape::Mesh(m) => {
            let hits = m.hits(r, t_min, t_max);
            lemma_closest(hits);
            if let Some(b) = closest(hits) {
                let i = choose|i: int| 0 <= i < hits.len() && hits[i] == Some(b);
                lemma_triangle_hits_valid(m.tris@[i], r, t_min, t_max);
            }
        },
    }
}

/// The closest hit of a world lies within the interval, its point is the ray's
/// point at its parameter, and its normal faces against the ray.
pub proof fn lemma_world_hit_valid(w: World, r: Ray, t_min: int, t_max: int)
    requires
        w.wf(),
        r.wf(),
        i64::MIN <= t_min,
        t_max <= i64::MAX,
    ensures
        closest(w.hits(r, t_min, t_max)) matches Some(h) ==> valid_hit(h, r, t_min, t_max),
{
    let hits = w.hits(r, t_min, t_max);
    lemma_closest(hits);
    if let Some(b) = closest(hits) {
        let i = choose|i: int| 0 <= i < hits.len() && hits[i] == Some(b);
        lemma_shape_hits_valid(w.shapes@[i], r, t_min, t_max);
    }
}

/// A member's hit refers to a material of the world.
proof fn lemma_shape_mat(s: Shape, r: Ray, t_min: int, t_max: int, n_mats: nat)
    requires
        s.mats_below(n_mats),
    ensures
        s.hit_spec(r, t_min, t_max) matches Some(h) ==> h.mat < n_mats,
{
    if let Shape::Mesh(m) = s {
        let hits = m.hits(r, t_min, t_max);
        lemma_closest(hits);
        if let Some(b) = closest(hits) {
            let i = choose|i: int| 0 <= i < hits.len() && hits[i] == Some(b);
            assert(m.tris@[i].mat < n_mats);
        }
    }
}

/// The largest ray parameter: a ray searches for hits without an upper bound.
pub const T_MAX: i64 = 0x7FFF_FFFF_FFFF_FFFF;

/// The radiance carried back along `r` with `depth` bounces left, where the bounce
/// with `k` bounces left takes its random input from `draws[k - 1]`: black when no
/// bounce is left, when nothing is hit or when the surface absorbs the ray; the
/// attenuation itself at a light source; else the attenuation times the radiance of
/// the scattered ray.
pub open spec fn radiance(w: World, r: Ray, depth: nat, draws: Seq<Draw>) -> Color
    decreases depth,
{
    if depth == 0 {
        black()
    } else {
        match closest(w.hits(r, T_MIN as int, T_MAX as int)) {
            None => black(),
            Some(h) => {
                let m = w.materials@[h.mat as int];
                match m.scatter_spec(r, h, draws[depth - 1]) {
                    None => black(),
                    Some((att, scattered)) => if m.emits() {
                        att
                    } else {
                        attenuate(att, radiance(w, scattered, (depth - 1) as nat, draws))
                    },
                }
            },
        }
    }
}

/// Random inputs enough for `depth` bounces.
pub open spec fn draws_ok(draws: Seq<Draw>, depth: nat) -> bool {
    depth <= draws.len() && forall|i: int| 0 <= i < draws.len() ==> #[trigger] draws[i].wf()
}

/// The color seen along ray `r` with at most `depth` bounces, using `draws` as the
/// random input of the bounces.
pub fn ray_color(r: &Ray, world: &World, depth: u64, draws: &Vec<Draw>) -> (c: Color)
    requires
        world.wf(),
        r.wf(),
        draws_ok(draws@, depth as nat),
    ensures
        c == radiance(*world, *r, depth as nat, draws@),
        c.within(COLOR_MAX as int),
        depth == 0 ==> c == black(),
        depth > 0 ==> (closest(world.hits(*r, T_MIN as int, T_MAX as int)) matches Some(h)
            ==> (world.materials@[h.mat as int] matches Material::Emittor { color } ==> c == color)),
    decreases depth,
{
    if depth == 0 {
        return Color { r: 0, g: 0, b: 0 };
    }
    match world.hit(r, T_MIN, T_MAX) {
        Some(rec) => {
            let m = &world.materials[rec.mat];
            let n = draws.len();
            assert(depth - 1 < n);
            let draw = &draws[(depth - 1) as usize];
            match m.scatter(r, &rec, draw) {
                Some((attenuation, scattered)) => {
                    if m.emit() {
                        attenuation
                    } else {
                        let inner = ray_color(&scattered, world, depth - 1, draws);
                        mul_color(attenuation, inner)
                    }
                },
                None => Color { r: 0, g: 0, b: 0 },
            }
        },
        None => Color { r: 0, g: 0, b: 0 },
    }
}

} // verus!
