//! Rays and points along them.
use vstd::prelude::*;
use crate::vec3::{bounded, floor_div, lemma_mul_bound, in_box, in_reach, v, vadd, Triple, Vec3, COORD_MAX, REACH_MAX};

verus! {

/// Ray parameters are fixed-point numbers in units of `1 / T_SCALE`.
pub const T_SCALE: i64 = 1000;

/// A ray `origin + t * direction`; the direction need not have unit length.
#[derive(Clone, Copy, Debug, PartialEq, Eq, Structural)]
pub struct Ray {
    pub origin: Vec3,
    pub direction: Vec3,
}

impl Ray {
    pub open spec fn wf(&self) -> bool {
        in_reach(self.origin) && in_box(self.direction)
    }

    pub fn is_valid(&self) -> (b: bool)
        ensures
            b == self.wf(),
    {
        self.origin.in_reach_range() && self.direction.in_range()
    }

    pub fn new(origin: Vec3, direction: Vec3) -> (r: Ray)
        ensures
            r.origin == origin,
            r.direction == direction,
    {
        Ray { origin, direction }
    }

    /// The point at parameter `t` (in units of `1 / T_SCALE`), or `None` where it
    /// is out of reach.
    pub fn at(&self, t: i64) -> (p: Option<Vec3>)
        requires
            self.wf(),
        ensures
            p is Some <==> bounded(at(*self, t as int), REACH_MAX as int),
            p matches Some(q) ==> v(q) == at(*self, t as int),
    {
        proof {
            lemma_mul_bound(t as int, self.direction.x as int, 0x8000_0000_0000_0000, COORD_MAX as int);
            lemma_mul_bound(t as int, self.direction.y as int, 0x8000_0000_0000_0000, COORD_MAX as int);
            lemma_mul_bound(t as int, self.direction.z as int, 0x8000_0000_0000_0000, COORD_MAX as int);
        }
        let x = self.origin.x as i128 + floor_div(t as i128 * self.direction.x as i128, T_SCALE as i128);
        let y = self.origin.y as i128 + floor_div(t as i128 * self.direction.y as i128, T_SCALE as i128);
        let z = self.origin.z as i128 + floor_div(t as i128 * self.direction.z as i128, T_SCALE as i128);
        if -(REACH_MAX as i128) <= x && x <= REACH_MAX as i128 && -(REACH_MAX as i128) <= y
            && y <= REACH_MAX as i128 && -(REACH_MAX as i128) <= z && z <= REACH_MAX as i128 {
            Some(Vec3 { x: x as i64, y: y as i64, z: z as i64 })
        } else {
            None
        }
    }
}

/// The point of ray `r` at parameter `t`, each component rounded down.
pub open spec fn at(r: Ray, t: int) -> Triple {
    vadd(
        v(r.origin),
        (
            (t * r.direction.x) / (T_SCALE as int),
            (t * r.direction.y) / (T_SCALE as int),
            (t * r.direction.z) / (T_SCALE as int),
        ),
    )
}

} // verus!
