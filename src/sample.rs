//! Random input for the estimator, one traced sample, and the conversion of a
//! pixel's summed samples to output channel values.
use vstd::prelude::*;
use rand::Rng;
use crate::vec3::{isqrt, lemma_sqrt_floor, sqrt_floor, Vec3, UNIT};
use crate::ray::Ray;
use crate::material::{black, Color, Draw, COLOR_MAX, ONE};
use crate::world::{draws_ok, radiance, ray_color, World};

verus! {

/// Relies on rand's `thread_rng().gen_range(lo..=hi)`: a value drawn from the
/// closed range `[lo, hi]`. `gen_range` panics on an empty range, which `requires`
/// leaves out; `thread_rng` panics only where the operating system cannot seed the
/// thread's generator, which no argument can rule out.
#[verifier::external_body]
fn random_between(lo: i64, hi: i64) -> (r: i64)
    requires
        lo <= hi,
    ensures
        lo <= r <= hi,
{
    rand::thread_rng().gen_range(lo..=hi)
}

/// Most candidates drawn for a vector in the unit ball before the zero vector is
/// taken instead.
pub const BALL_TRIES: u32 = 64;

/// Draws the random input of one scattering event: a vector in the ball of radius
/// `UNIT`, by rejection from the enclosing cube, and a number in `[0, ONE)`.
pub fn random_draw() -> (d: Draw)
    ensures
        d.wf(),
{
    let pick = random_between(0, ONE - 1);
    let mut tries: u32 = 0;
    while tries < BALL_TRIES
        invariant
            0 <= pick < ONE,
        decreases BALL_TRIES - tries,
    {
        let x = random_between(-UNIT, UNIT);
        let y = random_between(-UNIT, UNIT);
        let z = random_between(-UNIT, UNIT);
        proof {
            crate::vec3::lemma_mul_bound(x as int, x as int, UNIT as int, UNIT as int);
            crate::vec3::lemma_mul_bound(y as int, y as int, UNIT as int, UNIT as int);
            crate::vec3::lemma_mul_bound(z as int, z as int, UNIT as int, UNIT as int);
        }
        if x * x + y * y + z * z <= UNIT * UNIT {
            return Draw { ball: Vec3 { x, y, z }, pick };
        }
        tries += 1;
    }
    Draw { ball: Vec3 { x: 0, y: 0, z: 0 }, pick }
}

/// Draws the random input for `n` bounces.
pub fn random_draws(n: usize) -> (ds: Vec<Draw>)
    ensures
        draws_ok(ds@, n as nat),
        ds@.len() == n,
{
    let mut ds: Vec<Draw> = Vec::new();
    let mut i: usize = 0;
    while i < n
        invariant
            i <= n,
            ds@.len() == i,
            forall|j: int| 0 <= j < ds@.len() ==> #[trigger] ds@[j].wf(),
        decreases n - i,
    {
        let d = random_draw();
        ds.push(d);
        i += 1;
    }
    ds
}

/// One sample of the color seen along `r`: the radiance estimate for freshly drawn
/// random input.
pub fn sample(r: &Ray, world: &World, depth: u64) -> (c: Color)
    requires
        world.wf(),
        r.wf(),
        depth <= 0xFFFF_FFFF,
    ensures
        exists|ds: Seq<Draw>| draws_ok(ds, depth as nat) && c == radiance(*world, *r, depth as nat, ds),
        c.within(COLOR_MAX as int),
        depth == 0 ==> c == black(),
{
    let ds = random_draws(depth as usize);
    ray_color(r, world, depth, &ds)
}

impl Color {
    /// Adds one sample to a pixel's running sum.
    pub fn add_sample(&mut self, c: Color)
        requires
            old(self).within(0x7FFF_FFFF_0000_0000),
            c.within(COLOR_MAX as int),
        ensures
            final(self).r == old(self).r + c.r,
            final(self).g == old(self).g + c.g,
            final(self).b == old(self).b + c.b,
    {
        self.r = self.r + c.r;
        self.g = self.g + c.g;
        self.b = self.b + c.b;
    }

    /// The output channel values of a pixel whose `samples` samples sum to `self`.
    pub fn to_bytes(&self, samples: u64) -> (b: (u8, u8, u8))
        requires
            samples > 0,
            self.within(0x7FFF_FFFF_FFFF_FFFF),
        ensures
            b.0 == channel(self.r as int, samples as int),
            b.1 == channel(self.g as int, samples as int),
            b.2 == channel(self.b as int, samples as int),
    {
        (channel_byte(self.r, samples), channel_byte(self.g, samples), channel_byte(self.b, samples))
    }
}

/// The output value of a channel: the mean of the samples (scale `ONE`),
/// gamma-corrected by a square root, scaled to 256 levels and clamped to 255.
pub open spec fn channel(sum: int, samples: int) -> int {
    let level = (256 * sqrt_floor((sum / samples) * ONE)) / (ONE as int);
    if level > 255 {
        255
    } else {
        level
    }
}

pub fn channel_byte(sum: i64, samples: u64) -> (b: u8)
    requires
        samples > 0,
        sum >= 0,
    ensures
        b == channel(sum as int, samples as int),
{
    let mean = sum as u64 / samples;
    let root = isqrt(mean as u128 * ONE as u128);
    proof {
        lemma_sqrt_floor(mean * ONE);
        assert(root < 0x4000_0000_0000_0000);
    }
    let level = 256 * root / ONE as u128;
    if level > 255 {
        255
    } else {
        level as u8
    }
}

} // verus!
