//! Rays.

use crate::fixed::{lemma_mul_floor_within, mul_floor, CLIP_MAX, DIRECTION_MAX, ORIGIN_MAX};
use crate::vec3::Vec3;
use vstd::prelude::*;

verus! {

/// A half-line: the points `origin + t * direction`.
///
/// The direction need not have length one; a distance along the ray is
/// parametric, a multiple of the direction's length.
#[derive(Clone, Copy, Debug, PartialEq, Eq, Structural)]
pub struct Ray {
    pub origin: Vec3,
    pub direction: Vec3,
}

impl Ray {
    /// Whether the ray lies in the range that intersection arithmetic covers.
    pub open spec fn wf(self) -> bool {
        &&& self.origin.within(ORIGIN_MAX as int)
        &&& self.direction.within(DIRECTION_MAX as int)
    }

    /// The point at parametric distance `t`.
    pub open spec fn at_spec(self, t: i64) -> Vec3 {
        self.origin.plus_spec(self.direction.scaled_spec(t))
    }

    /// Tells whether the ray is well-formed.
    pub fn is_valid(&self) -> (r: bool)
        ensures
            r == self.wf(),
    {
        self.origin.is_within(ORIGIN_MAX) && self.direction.is_within(DIRECTION_MAX)
    }

    /// The point at parametric distance `t`.
    pub fn at(&self, t: i64) -> (r: Vec3)
        requires
            self.wf(),
            -CLIP_MAX <= t <= CLIP_MAX,
        ensures
            r == self.at_spec(t),
            r.within(ORIGIN_MAX + 0x8_0000_0000),
    {
        proof {
            lemma_reach(self.direction, t, DIRECTION_MAX as int);
        }
        self.origin.plus(self.direction.scaled(t))
    }
}

/// A step of parametric length `t` along a bounded direction moves each
/// coordinate by at most `bound * CLIP_MAX / ONE`.
pub proof fn lemma_reach(direction: Vec3, t: i64, bound: int)
    requires
        direction.within(bound),
        -CLIP_MAX <= t <= CLIP_MAX,
        0 <= bound <= DIRECTION_MAX,
    ensures
        -(bound * 0x8000) <= mul_floor(direction.x as int, t as int) <= bound * 0x8000,
        -(bound * 0x8000) <= mul_floor(direction.y as int, t as int) <= bound * 0x8000,
        -(bound * 0x8000) <= mul_floor(direction.z as int, t as int) <= bound * 0x8000,
        direction.scaled_spec(t).within(bound * 0x8000),
{
    assert(bound * CLIP_MAX == (bound * 0x8000) * 65536) by (nonlinear_arith)
        requires
            CLIP_MAX == 0x8000_0000,
    ;
    vstd::arithmetic::div_mod::lemma_fundamental_div_mod_converse(
        bound * CLIP_MAX,
        65536,
        bound * 0x8000,
        0,
    );
    lemma_mul_floor_within(direction.x as int, t as int, bound, CLIP_MAX as int);
    lemma_mul_floor_within(direction.y as int, t as int, bound, CLIP_MAX as int);
    lemma_mul_floor_within(direction.z as int, t as int, bound, CLIP_MAX as int);
}

impl Default for Ray {
    /// A ray from the origin along the Z axis.
    fn default() -> (r: Ray)
        ensures
            r == (Ray {
                origin: Vec3 { x: 0, y: 0, z: 0 },
                direction: Vec3 { x: 0, y: 0, z: 65536 },
            }),
    {
        Ray { origin: Vec3::new(0, 0, 0), direction: Vec3::new(0, 0, 65536) }
    }
}

} // verus!
