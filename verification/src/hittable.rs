//! What a ray can hit, and what a hit test reports.

use crate::fixed::{
    floor_div, isqrt, lemma_product_within, lemma_sqrt_floor_unique, sqrt_floor, CLIP_MAX,
    DIRECTION_MAX, ONE, ORIGIN_MAX, WORLD_MAX,
};
use crate::geom::Ray;
use crate::scene::Sphere;
use crate::vec3::{lemma_length_squared_bounds, Vec3};
use std::ops::Range;
use vstd::prelude::*;

verus! {

/// The shapes of a scene.
#[derive(Clone, Copy, Debug, PartialEq, Eq, Structural)]
pub enum Hittable {
    Sphere(Sphere),
}

/// The side of a surface that a ray met.
#[derive(Eq, PartialEq, Copy, Clone, Debug, Structural)]
pub enum FaceSide {
    Front,
    Back,
}

/// The outcome of testing a ray against a shape.
#[derive(Clone, Copy, Debug, PartialEq, Eq, Structural)]
pub enum HitPayload {
    Hit {
        /// The proportion along the ray, not a world distance.
        hit_distance: i64,
        /// The normalized direction at right angles to the surface at the
        /// hit, turned against the ray.
        world_normal: Vec3,
        world_position: Vec3,
        material_index: usize,
        side: FaceSide,
    },
    Miss,
    /// The ray starts strictly inside the shape.
    Inside,
}

impl HitPayload {
    /// Whether a hit has a normalized direction for its normal and a
    /// position within reach of a well-formed ray.
    pub open spec fn wf(self) -> bool {
        match self {
            HitPayload::Hit { world_normal, world_position, .. } => {
                &&& world_normal.within(ONE as int)
                &&& world_normal.is_normalized_spec()
                &&& world_position.within(ORIGIN_MAX + 0x8_0000_0000)
            },
            _ => true,
        }
    }

    /// Whether a hit lies on the ray, at a distance that the clip range holds.
    pub open spec fn on_ray(self, ray: Ray, clip: Range<i64>) -> bool {
        match self {
            HitPayload::Hit { hit_distance, world_position, .. } => {
                &&& in_clip(clip, hit_distance as int)
                &&& world_position == ray.at_spec(hit_distance)
            },
            _ => true,
        }
    }

    /// Tells whether the payload is well-formed.
    pub fn is_valid(&self) -> (r: bool)
        ensures
            r == self.wf(),
    {
        match self {
            HitPayload::Hit { world_normal, world_position, .. } => {
                world_normal.is_within(ONE) && world_normal.is_normalized()
                    && world_position.is_within(ORIGIN_MAX + 0x8_0000_0000)
            },
            _ => true,
        }
    }
}

impl HitPayload {
    /// The one of two outcomes that counts when both are outcomes for one
    /// ray: a ray that starts inside a shape is inside; of two hits the
    /// nearer, and the first on a tie; a hit before a miss.
    pub open spec fn closer_spec(self, next: HitPayload) -> HitPayload {
        match (self, next) {
            (HitPayload::Inside, _) => HitPayload::Inside,
            (_, HitPayload::Inside) => HitPayload::Inside,
            (HitPayload::Miss, _) => next,
            (_, HitPayload::Miss) => self,
            (
                HitPayload::Hit { hit_distance: d_acc, .. },
                HitPayload::Hit { hit_distance: d_next, .. },
            ) => if d_next < d_acc {
                next
            } else {
                self
            },
        }
    }

    /// Picks the one of two outcomes for one ray that counts.
    pub fn closer(self, next: HitPayload) -> (r: HitPayload)
        ensures
            r == self.closer_spec(next),
    {
        match (self, next) {
            (HitPayload::Inside, _) => HitPayload::Inside,
            (_, HitPayload::Inside) => HitPayload::Inside,
            (HitPayload::Miss, _) => next,
            (_, HitPayload::Miss) => self,
            (
                HitPayload::Hit { hit_distance: d_acc, .. },
                HitPayload::Hit { hit_distance: d_next, .. },
            ) => if d_next < d_acc {
                next
            } else {
                self
            },
        }
    }
}

/// The outcome for a ray in a scene of the shapes `hittables`: the outcomes
/// of all shapes, combined from the first to the last.
pub open spec fn nearest_hit(hittables: Seq<Hittable>, ray: Ray, clip: Range<i64>) -> HitPayload
    decreases hittables.len(),
{
    if hittables.len() == 0 {
        HitPayload::Miss
    } else {
        nearest_hit(hittables.drop_last(), ray, clip).closer_spec(
            hittables.last().check_hit_spec(ray, clip),
        )
    }
}

/// Whether a clip range lies in the range that intersection arithmetic covers.
pub open spec fn clip_wf(clip: Range<i64>) -> bool {
    -CLIP_MAX <= clip.start && clip.end <= CLIP_MAX
}

/// Whether the parametric distance `t` lies in the clip range.
pub open spec fn in_clip(clip: Range<i64>, t: int) -> bool {
    clip.start <= t < clip.end
}

/// Tells whether a clip range is well-formed.
pub fn clip_is_valid(clip: &Range<i64>) -> (r: bool)
    ensures
        r == clip_wf(*clip),
{
    -CLIP_MAX <= clip.start && clip.end <= CLIP_MAX
}

impl Sphere {
    /// The ray's origin as seen from the centre.
    pub open spec fn offset_spec(self, ray: Ray) -> Vec3 {
        ray.origin.minus_spec(self.center)
    }

    /// Whether the ray starts strictly inside the sphere.
    pub open spec fn encloses(self, ray: Ray) -> bool {
        self.offset_spec(ray).length_squared_spec() < self.radius * self.radius
    }

    /// The quadratic coefficient `a`: the squared length of the direction.
    pub open spec fn quadratic_a(self, ray: Ray) -> int {
        ray.direction.length_squared_spec()
    }

    /// Half the linear coefficient `b`: the offset times the direction.
    pub open spec fn quadratic_half_b(self, ray: Ray) -> int {
        self.offset_spec(ray).dot_spec(ray.direction)
    }

    /// The constant coefficient `c`: the squared offset less the squared radius.
    pub open spec fn quadratic_c(self, ray: Ray) -> int {
        self.offset_spec(ray).length_squared_spec() - self.radius * self.radius
    }

    /// A quarter of the discriminant `b^2 - 4ac`.
    pub open spec fn discriminant(self, ray: Ray) -> int {
        self.quadratic_half_b(ray) * self.quadratic_half_b(ray) - self.quadratic_a(ray)
            * self.quadratic_c(ray)
    }

    /// The smaller root `(-b - sqrt(b^2 - 4ac)) / 2a` as a scalar, rounded down.
    pub open spec fn near_root(self, ray: Ray) -> int {
        ((-self.quadratic_half_b(ray) - sqrt_floor(self.discriminant(ray))) * ONE)
            / self.quadratic_a(ray)
    }

    /// The larger root `(-b + sqrt(b^2 - 4ac)) / 2a` as a scalar, rounded down.
    pub open spec fn far_root(self, ray: Ray) -> int {
        ((-self.quadratic_half_b(ray) + sqrt_floor(self.discriminant(ray))) * ONE)
            / self.quadratic_a(ray)
    }

    /// The root at which the ray is taken to meet the sphere: the smaller one
    /// if the clip range holds it, else the larger one if the range holds
    /// that. A ray without a direction, and a line that passes the sphere by,
    /// have none.
    pub open spec fn accepted_root(self, ray: Ray, clip: Range<i64>) -> Option<i64> {
        if self.quadratic_a(ray) == 0 || self.discriminant(ray) < 0 {
            None
        } else if in_clip(clip, self.near_root(ray)) {
            Some(self.near_root(ray) as i64)
        } else if in_clip(clip, self.far_root(ray)) {
            Some(self.far_root(ray) as i64)
        } else {
            None
        }
    }

    /// The hit at parametric distance `t`: the point on the ray, the
    /// normalized direction from the centre through that point, turned
    /// against the ray, and the side that the ray came from. A point that
    /// rounding has moved onto the centre has no such normal: there the
    /// normal is the direction against the ray, on the front side. A ray
    /// without a direction hits nothing.
    pub open spec fn hit_at(self, ray: Ray, t: i64) -> HitPayload {
        let position = ray.at_spec(t);
        match position.minus_spec(self.center).try_normalize_spec() {
            None => match ray.direction.negated_spec().try_normalize_spec() {
                None => HitPayload::Miss,
                Some(against) => HitPayload::Hit {
                    hit_distance: t,
                    world_normal: against,
                    world_position: position,
                    material_index: self.material_index,
                    side: FaceSide::Front,
                },
            },
            Some(normal) => if ray.direction.dot_spec(normal) > 0 {
                HitPayload::Hit {
                    hit_distance: t,
                    world_normal: normal.negated_spec(),
                    world_position: position,
                    material_index: self.material_index,
                    side: FaceSide::Back,
                }
            } else {
                HitPayload::Hit {
                    hit_distance: t,
                    world_normal: normal,
                    world_position: position,
                    material_index: self.material_index,
                    side: FaceSide::Front,
                }
            },
        }
    }

    /// What a hit test of the ray against the sphere reports: inside for a
    /// ray that starts strictly inside, else a hit exactly where the ray has
    /// an accepted root.
    pub open spec fn check_hit_spec(self, ray: Ray, clip: Range<i64>) -> HitPayload {
        if self.encloses(ray) {
            HitPayload::Inside
        } else {
            match self.accepted_root(ray, clip) {
                None => HitPayload::Miss,
                Some(t) => self.hit_at(ray, t),
            }
        }
    }
}

impl Hittable {
    /// Whether the shape is well-formed.
    pub open spec fn wf(self) -> bool {
        match self {
            Hittable::Sphere(sphere) => sphere.wf(),
        }
    }

    /// Whether the ray hits the shape: it starts outside or on it and meets
    /// it at a distance that the clip range holds.
    pub open spec fn accepts(self, ray: Ray, clip: Range<i64>) -> bool {
        match self {
            Hittable::Sphere(sphere) => !sphere.encloses(ray) && sphere.accepted_root(ray, clip)
                is Some,
        }
    }

    /// The handle of the shape's material.
    pub open spec fn material_index_spec(self) -> usize {
        match self {
            Hittable::Sphere(sphere) => sphere.material_index,
        }
    }

    /// What a hit test of the ray against the shape reports.
    pub open spec fn check_hit_spec(self, ray: Ray, clip: Range<i64>) -> HitPayload {
        match self {
            Hittable::Sphere(sphere) => sphere.check_hit_spec(ray, clip),
        }
    }

    /// Tests the ray against the shape, for hits whose parametric distance
    /// lies in `look_clip`.
    #[inline]
    pub fn check_hit(&self, ray: &Ray, look_clip: &Range<i64>) -> (r: HitPayload)
        requires
            self.wf(),
            ray.wf(),
            clip_wf(*look_clip),
        ensures
            r == self.check_hit_spec(*ray, *look_clip),
            r.wf(),
            r.on_ray(*ray, *look_clip),
            r matches HitPayload::Hit { material_index, .. } ==> material_index
                == self.material_index_spec(),
            r is Hit <==> self.accepts(*ray, *look_clip),
    {
        match self {
            Hittable::Sphere(sphere) => Self::check_hit_sphere(sphere, ray, look_clip),
        }
    }

    #[inline]
    fn check_hit_sphere(sphere: &Sphere, ray: &Ray, look_clip: &Range<i64>) -> (r: HitPayload)
        requires
            sphere.wf(),
            ray.wf(),
            clip_wf(*look_clip),
        ensures
            r == sphere.check_hit_spec(*ray, *look_clip),
            r.wf(),
            r.on_ray(*ray, *look_clip),
            r matches HitPayload::Hit { material_index, .. } ==> material_index
                == sphere.material_index,
            r is Hit <==> !sphere.encloses(*ray) && sphere.accepted_root(*ray, *look_clip)
                is Some,
    {
        let offset_center = ray.origin.minus(sphere.center);
        assert(offset_center.within(ORIGIN_MAX + WORLD_MAX));
        proof {
            lemma_length_squared_bounds(offset_center, 0x30_0000_0000);
            lemma_length_squared_bounds(ray.direction, 0x10_0000);
            lemma_product_within(
                sphere.radius as int,
                sphere.radius as int,
                WORLD_MAX as int,
                WORLD_MAX as int,
            );
        }
        let offset_squared: i128 = offset_center.length_squared();
        let radius_squared: i128 = (sphere.radius as i128) * (sphere.radius as i128);

        if offset_squared < radius_squared {
            HitPayload::Inside
        } else {
            // solve the equation of the ray set equal to the equation of the
            // sphere; a, 2 * half_b and c are the quadratic's coefficients
            let a: i128 = ray.direction.length_squared();
            let half_b: i128 = offset_center.dot(ray.direction);
            let c: i128 = offset_squared - radius_squared;
            proof {
                lemma_half_b_bounds(offset_center, ray.direction);
                lemma_discriminant_bounds(a as int, half_b as int, c as int);
            }
            let discrim: i128 = half_b * half_b - a * c;

            if a == 0 || discrim < 0 {
                HitPayload::Miss
            } else {
                proof {
                    if ray.direction.is_zero() {
                        assert(ray.direction.x * ray.direction.x + ray.direction.y
                            * ray.direction.y + ray.direction.z * ray.direction.z == 0)
                            by (nonlinear_arith)
                            requires
                                ray.direction.x == 0 && ray.direction.y == 0 && ray.direction.z
                                    == 0,
                        ;
                    }
                }
                let sqrtd: i128 = isqrt(discrim as u128) as i128;
                proof {
                    lemma_root_bounds(a as int, half_b as int, c as int, sqrtd as int);
                }
                let mut t: i128 = floor_div((-half_b - sqrtd) * (ONE as i128), a);
                if !(look_clip.start as i128 <= t && t < look_clip.end as i128) {
                    t = floor_div((-half_b + sqrtd) * (ONE as i128), a);
                }
                if look_clip.start as i128 <= t && t < look_clip.end as i128 {
                    Self::sphere_hit_at(sphere, ray, t as i64)
                } else {
                    HitPayload::Miss
                }
            }
        }
    }

    fn sphere_hit_at(sphere: &Sphere, ray: &Ray, t: i64) -> (r: HitPayload)
        requires
            sphere.wf(),
            ray.wf(),
            -CLIP_MAX <= t <= CLIP_MAX,
        ensures
            r == sphere.hit_at(*ray, t),
            r.wf(),
            r matches HitPayload::Hit { hit_distance, world_position, material_index, .. }
                ==> hit_distance == t && world_position == ray.at_spec(t) && material_index
                == sphere.material_index,
            !ray.direction.is_zero() ==> r is Hit,
    {
        let world_position = ray.at(t);
        match world_position.minus(sphere.center).try_normalize() {
            None => match ray.direction.negated().try_normalize() {
                None => HitPayload::Miss,
                Some(against) => HitPayload::Hit {
                    hit_distance: t,
                    world_normal: against,
                    world_position,
                    material_index: sphere.material_index,
                    side: FaceSide::Front,
                },
            },
            Some(world_normal) => {
                proof {
                    crate::vec3::lemma_negated_is_normalized(world_normal);
                }
                if ray.direction.dot(world_normal) > 0 {
                    HitPayload::Hit {
                        hit_distance: t,
                        world_normal: world_normal.negated(),
                        world_position,
                        material_index: sphere.material_index,
                        side: FaceSide::Back,
                    }
                } else {
                    HitPayload::Hit {
                        hit_distance: t,
                        world_normal,
                        world_position,
                        material_index: sphere.material_index,
                        side: FaceSide::Front,
                    }
                }
            },
        }
    }
}

/// The bound of `half_b` for an offset and a direction in range.
proof fn lemma_half_b_bounds(offset: Vec3, direction: Vec3)
    requires
        offset.within(ORIGIN_MAX + WORLD_MAX),
        direction.within(DIRECTION_MAX as int),
    ensures
        -0x900_0000_0000_0000 <= offset.dot_spec(direction) <= 0x900_0000_0000_0000,
{
    lemma_product_within(
        offset.x as int,
        direction.x as int,
        ORIGIN_MAX + WORLD_MAX,
        DIRECTION_MAX as int,
    );
    lemma_product_within(
        offset.y as int,
        direction.y as int,
        ORIGIN_MAX + WORLD_MAX,
        DIRECTION_MAX as int,
    );
    lemma_product_within(
        offset.z as int,
        direction.z as int,
        ORIGIN_MAX + WORLD_MAX,
        DIRECTION_MAX as int,
    );
}

/// The two products of the discriminant fit in a word of 128 bits.
proof fn lemma_discriminant_bounds(a: int, half_b: int, c: int)
    requires
        0 <= a <= 0x300_0000_0000,
        -0x900_0000_0000_0000 <= half_b <= 0x900_0000_0000_0000,
        0 <= c <= 0x1b00_0000_0000_0000_0000,
    ensures
        0 <= half_b * half_b <= 0x51_0000_0000_0000_0000_0000_0000_0000,
        0 <= a * c <= 0x51_0000_0000_0000_0000_0000_0000_0000,
{
    assert(0 <= half_b * half_b <= 0x51_0000_0000_0000_0000_0000_0000_0000) by (nonlinear_arith)
        requires
            -0x900_0000_0000_0000 <= half_b <= 0x900_0000_0000_0000,
    ;
    assert(0 <= a * c <= 0x51_0000_0000_0000_0000_0000_0000_0000) by (nonlinear_arith)
        requires
            0 <= a <= 0x300_0000_0000,
            0 <= c <= 0x1b00_0000_0000_0000_0000,
    ;
}

/// The numerators of both roots fit in a word of 128 bits, and the root of
/// the discriminant does not exceed `half_b` in magnitude.
proof fn lemma_root_bounds(a: int, half_b: int, c: int, sqrtd: int)
    requires
        0 <= a,
        0 <= c,
        -0x900_0000_0000_0000 <= half_b <= 0x900_0000_0000_0000,
        crate::fixed::is_sqrt_floor(half_b * half_b - a * c, sqrtd),
    ensures
        0 <= sqrtd <= 0x900_0000_0000_0000,
{
    assert(0 <= a * c) by (nonlinear_arith)
        requires
            0 <= a,
            0 <= c,
    ;
    assert(sqrtd <= 0x900_0000_0000_0000) by (nonlinear_arith)
        requires
            0 <= sqrtd,
            sqrtd * sqrtd <= half_b * half_b,
            -0x900_0000_0000_0000 <= half_b <= 0x900_0000_0000_0000,
    ;
}

impl Sphere {
    /// Whether the line of the ray passes the centre at more than the radius.
    /// The squared distance of the line from the centre is the squared
    /// offset less the squared part of the offset along the direction; here
    /// both sides are multiplied by the squared length of the direction.
    pub open spec fn passed_by(self, ray: Ray) -> bool {
        self.offset_spec(ray).length_squared_spec() * self.quadratic_a(ray)
            - self.quadratic_half_b(ray) * self.quadratic_half_b(ray) > self.radius * self.radius
            * self.quadratic_a(ray)
    }

    /// Whether the ray points at the centre with a normalized direction and
    /// starts `distance` times the length of that direction from the centre.
    pub open spec fn faced_nearly_from(self, ray: Ray, distance: int) -> bool {
        &&& ray.direction.is_normalized_spec()
        &&& self.offset_spec(ray).x * ONE == -ray.direction.x * distance
        &&& self.offset_spec(ray).y * ONE == -ray.direction.y * distance
        &&& self.offset_spec(ray).z * ONE == -ray.direction.z * distance
    }

    /// How far the parametric distance of a hit may lie from the distance to
    /// the surface for a ray that faces the centre: what the length of a
    /// normalized direction and rounding can make of the radius.
    pub open spec fn facing_slack(self) -> int {
        (21 * self.radius) / (ONE as int) + 2
    }

    /// Whether the ray points at the centre with a direction as
    /// `try_normalize` gives them and starts `distance` times the length of
    /// that direction from the centre.
    pub open spec fn faced_closely_from(self, ray: Ray, distance: int) -> bool {
        &&& ray.direction.is_unit_spec()
        &&& self.faced_nearly_from(ray, distance)
    }

    /// How far the parametric distance of a hit may lie from the distance to
    /// the surface for a ray that faces the centre with a direction as
    /// `try_normalize` gives them: for radii up to one, less than a ten
    /// thousandth.
    pub open spec fn close_slack(self) -> int {
        (4 * self.radius) / (ONE as int) + 2
    }

    /// Whether the ray starts at the distance `distance` from the centre and
    /// points at the centre with a direction whose length is exactly one.
    pub open spec fn faced_from(self, ray: Ray, distance: int) -> bool {
        &&& ray.direction.length_squared_spec() == ONE * ONE
        &&& self.offset_spec(ray).x * ONE == -ray.direction.x * distance
        &&& self.offset_spec(ray).y * ONE == -ray.direction.y * distance
        &&& self.offset_spec(ray).z * ONE == -ray.direction.z * distance
    }
}

/// A ray whose line passes the centre of a sphere at more than the radius
/// misses the sphere, whatever the clip range.
pub proof fn lemma_passing_ray_misses(sphere: Sphere, ray: Ray, clip: Range<i64>)
    requires
        sphere.passed_by(ray),
    ensures
        sphere.check_hit_spec(ray, clip) == HitPayload::Miss,
{
    let offset = sphere.offset_spec(ray).length_squared_spec();
    let a = sphere.quadratic_a(ray);
    let half_b = sphere.quadratic_half_b(ray);
    let r2 = sphere.radius * sphere.radius;
    assert(0 <= half_b * half_b) by (nonlinear_arith);
    lemma_length_squared_bounds(ray.direction, 0x8000_0000_0000_0000);
    assert(a >= 0);
    assert(offset >= r2) by (nonlinear_arith)
        requires
            offset * a - half_b * half_b > r2 * a,
            0 <= half_b * half_b,
            a >= 0,
    ;
    assert(half_b * half_b - a * (offset - r2) < 0) by (nonlinear_arith)
        requires
            offset * a - half_b * half_b > r2 * a,
    ;
}

/// Where `o` is `-d` stretched by `distance / one`, the products of `o` with
/// `d` and with itself are those of `d` with itself, stretched.
proof fn lemma_stretched_products(o: int, d: int, one: int, distance: int)
    requires
        o * one == -d * distance,
    ensures
        (o * d) * one == -distance * (d * d),
        (o * o) * (one * one) == (distance * distance) * (d * d),
{
    assert((o * d) * one == (o * one) * d) by (nonlinear_arith);
    assert((-d * distance) * d == -distance * (d * d)) by (nonlinear_arith);
    assert((o * o) * (one * one) == (o * one) * (o * one)) by (nonlinear_arith);
    assert((-d * distance) * (-d * distance) == (distance * distance) * (d * d))
        by (nonlinear_arith);
}

/// A ray that faces the centre of a sphere from the distance `distance`,
/// outside the sphere, meets it at the parametric distance `distance -
/// radius`, if the clip range holds that distance.
pub proof fn lemma_facing_ray_hits(sphere: Sphere, ray: Ray, clip: Range<i64>, distance: int)
    requires
        sphere.radius > 0,
        distance > sphere.radius,
        sphere.faced_from(ray, distance),
        in_clip(clip, distance - sphere.radius),
    ensures
        sphere.accepted_root(ray, clip) == Some((distance - sphere.radius) as i64),
        sphere.check_hit_spec(ray, clip) == sphere.hit_at(
            ray,
            (distance - sphere.radius) as i64,
        ),
{
    let o = sphere.offset_spec(ray);
    let d = ray.direction;
    let one: int = ONE as int;
    let r: int = sphere.radius as int;
    let a = sphere.quadratic_a(ray);
    let half_b = sphere.quadratic_half_b(ray);
    let c = sphere.quadratic_c(ray);
    let offset = o.length_squared_spec();
    assert(a == one * one);
    // The offset is the direction, stretched: so are its products.
    lemma_stretched_products(o.x as int, d.x as int, one, distance);
    lemma_stretched_products(o.y as int, d.y as int, one, distance);
    lemma_stretched_products(o.z as int, d.z as int, one, distance);
    assert(half_b * one == -distance * a) by (nonlinear_arith)
        requires
            half_b == o.x * d.x + o.y * d.y + o.z * d.z,
            a == d.x * d.x + d.y * d.y + d.z * d.z,
            (o.x * d.x) * one == -distance * (d.x * d.x),
            (o.y * d.y) * one == -distance * (d.y * d.y),
            (o.z * d.z) * one == -distance * (d.z * d.z),
    ;
    assert(half_b == -distance * one) by (nonlinear_arith)
        requires
            half_b * one == -distance * a,
            a == one * one,
            one == 65536,
    ;
    assert(offset * (one * one) == (distance * distance) * a) by (nonlinear_arith)
        requires
            offset == o.x * o.x + o.y * o.y + o.z * o.z,
            a == d.x * d.x + d.y * d.y + d.z * d.z,
            (o.x * o.x) * (one * one) == (distance * distance) * (d.x * d.x),
            (o.y * o.y) * (one * one) == (distance * distance) * (d.y * d.y),
            (o.z * o.z) * (one * one) == (distance * distance) * (d.z * d.z),
    ;
    assert(offset == distance * distance) by (nonlinear_arith)
        requires
            offset * (one * one) == (distance * distance) * a,
            a == one * one,
            one == 65536,
    ;
    assert(distance * distance > r * r) by (nonlinear_arith)
        requires
            distance > r,
            r > 0,
    ;
    assert(!sphere.encloses(ray));
    let discriminant = sphere.discriminant(ray);
    assert(discriminant == (one * r) * (one * r)) by (nonlinear_arith)
        requires
            discriminant == half_b * half_b - a * c,
            half_b == -distance * one,
            a == one * one,
            c == distance * distance - r * r,
    ;
    assert(crate::fixed::is_sqrt_floor(discriminant, one * r)) by (nonlinear_arith)
        requires
            discriminant == (one * r) * (one * r),
            one == 65536,
            r > 0,
    ;
    lemma_sqrt_floor_unique(discriminant, one * r, sqrt_floor(discriminant));
    let numerator = (-half_b - sqrt_floor(discriminant)) * one;
    assert(numerator == (distance - r) * a) by (nonlinear_arith)
        requires
            numerator == (-half_b - one * r) * one,
            half_b == -distance * one,
            a == one * one,
    ;
    vstd::arithmetic::div_mod::lemma_fundamental_div_mod_converse(numerator, a, distance - r, 0);
    assert(sphere.near_root(ray) == distance - r);
}

/// The quadratic of a ray that faces the centre of a sphere with a
/// normalized direction, from outside the sphere: the ray starts outside,
/// half the linear coefficient is the distance times the squared length of
/// the direction, against the ray, and the discriminant is the squared
/// radius times that squared length.
proof fn lemma_facing_quadratic(sphere: Sphere, ray: Ray, distance: int)
    requires
        sphere.radius > 0,
        (ONE - 7) * distance >= ONE * sphere.radius,
        sphere.faced_nearly_from(ray, distance),
    ensures
        !sphere.encloses(ray),
        sphere.quadratic_half_b(ray) * ONE == -(distance * sphere.quadratic_a(ray)),
        sphere.discriminant(ray) == sphere.quadratic_a(ray) * (sphere.radius * sphere.radius),
        sphere.discriminant(ray) >= 0,
        0xfff2_e48f <= sphere.quadratic_a(ray) <= 0x1_000d_1b71,
{
    let o = sphere.offset_spec(ray);
    let d = ray.direction;
    let one: int = ONE as int;
    let r: int = sphere.radius as int;
    let a = sphere.quadratic_a(ray);
    let half_b = sphere.quadratic_half_b(ray);
    let c = sphere.quadratic_c(ray);
    let offset = o.length_squared_spec();
    let oo = one * one;
    let rr = r * r;
    assert(oo == 0x1_0000_0000);
    assert(0xfff2_e48f <= a <= 0x1_000d_1b71);
    // The offset is the direction, stretched: so are its products.
    lemma_stretched_products(o.x as int, d.x as int, one, distance);
    lemma_stretched_products(o.y as int, d.y as int, one, distance);
    lemma_stretched_products(o.z as int, d.z as int, one, distance);
    let x = distance * a;
    assert(half_b * one == -x) by (nonlinear_arith)
        requires
            half_b == o.x * d.x + o.y * d.y + o.z * d.z,
            a == d.x * d.x + d.y * d.y + d.z * d.z,
            x == distance * a,
            (o.x * d.x) * one == -distance * (d.x * d.x),
            (o.y * d.y) * one == -distance * (d.y * d.y),
            (o.z * d.z) * one == -distance * (d.z * d.z),
    ;
    let dd = distance * distance;
    assert(offset * oo == dd * a) by (nonlinear_arith)
        requires
            offset == o.x * o.x + o.y * o.y + o.z * o.z,
            a == d.x * d.x + d.y * d.y + d.z * d.z,
            oo == one * one,
            dd == distance * distance,
            (o.x * o.x) * (one * one) == (distance * distance) * (d.x * d.x),
            (o.y * o.y) * (one * one) == (distance * distance) * (d.y * d.y),
            (o.z * o.z) * (one * one) == (distance * distance) * (d.z * d.z),
    ;
    // The ray starts outside the sphere.
    assert(distance > 0) by (nonlinear_arith)
        requires
            (one - 7) * distance >= one * r,
            r > 0,
            one == 65536,
    ;
    assert(dd * a >= rr * oo) by (nonlinear_arith)
        requires
            dd == distance * distance,
            rr == r * r,
            oo == one * one,
            (one - 7) * distance >= one * r,
            r > 0,
            distance > 0,
            a >= 0xfff2_e48f,
            one == 65536,
    ;
    assert(offset >= rr) by (nonlinear_arith)
        requires
            offset * oo >= rr * oo,
            oo > 0,
    ;
    assert(!sphere.encloses(ray));
    // The discriminant is the squared radius times the squared length of the
    // direction.
    let discriminant = sphere.discriminant(ray);
    assert((half_b * half_b) * oo == x * x) by (nonlinear_arith)
        requires
            half_b * one == -x,
            oo == one * one,
    ;
    assert((a * c) * oo == x * x - (a * rr) * oo) by (nonlinear_arith)
        requires
            c == offset - rr,
            offset * oo == dd * a,
            x == distance * a,
            dd == distance * distance,
    ;
    assert(discriminant * oo == (a * rr) * oo) by (nonlinear_arith)
        requires
            discriminant == half_b * half_b - a * c,
            (half_b * half_b) * oo == x * x,
            (a * c) * oo == x * x - (a * rr) * oo,
    ;
    assert(discriminant == a * rr) by (nonlinear_arith)
        requires
            discriminant * oo == (a * rr) * oo,
            oo > 0,
    ;
    assert(rr > 0) by (nonlinear_arith)
        requires
            rr == r * r,
            r > 0,
    ;
    assert(discriminant >= 0) by (nonlinear_arith)
        requires
            discriminant == a * rr,
            a >= 0,
            rr >= 0,
    ;
}

/// A ray that faces the centre of a sphere with a normalized direction, from
/// outside the sphere, meets it at a parametric distance that is the
/// distance to the surface up to `facing_slack`; it is hit there if the clip
/// range holds that distance.
pub proof fn lemma_facing_ray_hits_nearly(
    sphere: Sphere,
    ray: Ray,
    clip: Range<i64>,
    distance: int,
)
    requires
        sphere.radius > 0,
        (ONE - 7) * distance >= ONE * sphere.radius,
        sphere.faced_nearly_from(ray, distance),
    ensures
        !sphere.encloses(ray),
        distance - sphere.radius - sphere.facing_slack() <= sphere.near_root(ray) <= distance
            - sphere.radius + sphere.facing_slack(),
        in_clip(clip, sphere.near_root(ray)) ==> sphere.check_hit_spec(ray, clip) == sphere.hit_at(
            ray,
            sphere.near_root(ray) as i64,
        ),
{
    lemma_facing_quadratic(sphere, ray, distance);
    let one: int = ONE as int;
    let r: int = sphere.radius as int;
    let a = sphere.quadratic_a(ray);
    let half_b = sphere.quadratic_half_b(ray);
    let rr = r * r;
    let x = distance * a;
    let discriminant = sphere.discriminant(ray);
    // Its root is the radius times the length of the direction.
    crate::fixed::lemma_sqrt_floor(discriminant);
    let root = sqrt_floor(discriminant);
    assert(root >= (one - 7) * r) by (nonlinear_arith)
        requires
            discriminant == a * rr,
            rr == r * r,
            a >= 0xfff2_e48f,
            discriminant < (root + 1) * (root + 1),
            root >= 0,
            r > 0,
            one == 65536,
    ;
    assert(root <= (one + 7) * r) by (nonlinear_arith)
        requires
            discriminant == a * rr,
            rr == r * r,
            a <= 0x1_000d_1b71,
            root * root <= discriminant,
            root >= 0,
            r > 0,
            one == 65536,
    ;
    assert(65529 * r <= root <= 65543 * r) by (nonlinear_arith)
        requires
            (one - 7) * r <= root <= (one + 7) * r,
            one == 65536,
    ;
    // The smaller root of the quadratic.
    let numerator = (-half_b - root) * one;
    assert(numerator == x - root * 65536) by (nonlinear_arith)
        requires
            numerator == (-half_b - root) * one,
            half_b * one == -x,
            one == 65536,
    ;
    let slack = sphere.facing_slack();
    vstd::arithmetic::div_mod::lemma_fundamental_div_mod(21 * r, 65536);
    assert(21 * r + 65536 <= slack * 65536 <= 21 * r + 2 * 65536);
    let low = distance - r - slack;
    let high = distance - r + slack;
    assert((r + slack) * a >= (r + slack) * 0xfff2_e48f) by (nonlinear_arith)
        requires
            a >= 0xfff2_e48f,
            r + slack >= 0,
    ;
    assert(low * a == x - (r + slack) * a) by (nonlinear_arith)
        requires
            low == distance - r - slack,
            x == distance * a,
    ;
    assert(low * a <= numerator);
    assert(high * a == x - (r - slack) * a) by (nonlinear_arith)
        requires
            high == distance - r + slack,
            x == distance * a,
    ;
    assert((r - slack) * a <= root * 65536) by {
        if r - slack > 0 {
            assert((r - slack) * a <= (r - slack) * 0x1_000d_1b71) by (nonlinear_arith)
                requires
                    a <= 0x1_000d_1b71,
                    r - slack > 0,
            ;
        } else {
            assert((r - slack) * a <= 0) by (nonlinear_arith)
                requires
                    a >= 0,
                    r - slack <= 0,
            ;
        }
    }
    assert(numerator <= high * a);
    crate::fixed::lemma_div_range(numerator, a, low, high);
}

/// A ray that faces the centre of a sphere with a direction as
/// `try_normalize` gives them, from outside the sphere, meets it at a
/// parametric distance that is the distance to the surface up to
/// `close_slack`; it is hit there if the clip range holds that distance.
pub proof fn lemma_facing_ray_hits_closely(
    sphere: Sphere,
    ray: Ray,
    clip: Range<i64>,
    distance: int,
)
    requires
        sphere.radius > 0,
        (ONE - 7) * distance >= ONE * sphere.radius,
        sphere.faced_closely_from(ray, distance),
    ensures
        !sphere.encloses(ray),
        distance - sphere.radius - sphere.close_slack() <= sphere.near_root(ray) <= distance
            - sphere.radius + sphere.close_slack(),
        in_clip(clip, sphere.near_root(ray)) ==> sphere.check_hit_spec(ray, clip) == sphere.hit_at(
            ray,
            sphere.near_root(ray) as i64,
        ),
{
    lemma_facing_quadratic(sphere, ray, distance);
    let one: int = ONE as int;
    let r: int = sphere.radius as int;
    let a = sphere.quadratic_a(ray);
    let half_b = sphere.quadratic_half_b(ray);
    let rr = r * r;
    let x = distance * a;
    let discriminant = sphere.discriminant(ray);
    assert(4294574080 <= a <= 4295491588);
    assert(rr >= 0) by (nonlinear_arith)
        requires
            rr == r * r,
    ;
    crate::fixed::lemma_sqrt_floor(discriminant);
    let root = sqrt_floor(discriminant);
    let numerator = (-half_b - root) * one;
    assert(numerator == x - root * 65536) by (nonlinear_arith)
        requires
            numerator == (-half_b - root) * one,
            half_b * one == -x,
            one == 65536,
    ;
    let slack = sphere.close_slack();
    vstd::arithmetic::div_mod::lemma_fundamental_div_mod(4 * r, 65536);
    assert(4 * r + 65537 <= slack * 65536 <= 4 * r + 2 * 65536);
    lemma_root_below(a, r, root, slack);
    lemma_root_above(a, r, root, slack);
    let low = distance - r - slack;
    let high = distance - r + slack;
    assert(low * a == x - (r + slack) * a) by (nonlinear_arith)
        requires
            low == distance - r - slack,
            x == distance * a,
    ;
    assert(high * a == x - (r - slack) * a) by (nonlinear_arith)
        requires
            high == distance - r + slack,
            x == distance * a,
    ;
    crate::fixed::lemma_div_range(numerator, a, low, high);
}

/// The root of the discriminant of a facing ray, as a scalar, is no more
/// than the radius and the slack together times the squared length of the
/// direction.
proof fn lemma_root_below(a: int, r: int, root: int, slack: int)
    requires
        4294574080 <= a,
        r > 0,
        root >= 0,
        root * root <= a * (r * r),
        slack * 65536 >= 4 * r,
        slack >= 0,
    ensures
        root * 65536 <= (r + slack) * a,
{
    let rr = r * r;
    let p = (r + slack) * (r + slack);
    let u = (r + slack) * 65536;
    let w = r * 65540;
    assert(u >= w >= 0);
    assert(u * u >= w * w) by (nonlinear_arith)
        requires
            u >= w >= 0,
    ;
    assert(w * w == rr * 4295491600) by (nonlinear_arith)
        requires
            w == r * 65540,
            rr == r * r,
    ;
    assert(u * u == p * 4294967296) by (nonlinear_arith)
        requires
            u == (r + slack) * 65536,
            p == (r + slack) * (r + slack),
    ;
    assert(p >= 0 && rr >= 0) by (nonlinear_arith)
        requires
            p == (r + slack) * (r + slack),
            rr == r * r,
    ;
    // the squared sum times the least squared length is the squared radius
    assert(p * 4294574080 >= rr * 4294967296);
    assert(p * a >= p * 4294574080) by (nonlinear_arith)
        requires
            p >= 0,
            a >= 4294574080,
    ;
    let big = (r + slack) * a;
    let small = root * 65536;
    assert(big * big == a * (p * a)) by (nonlinear_arith)
        requires
            big == (r + slack) * a,
            p == (r + slack) * (r + slack),
    ;
    assert(small * small == (root * root) * 4294967296) by (nonlinear_arith)
        requires
            small == root * 65536,
    ;
    assert(a * (p * a) >= a * (rr * 4294967296)) by (nonlinear_arith)
        requires
            p * a >= rr * 4294967296,
            a >= 0,
    ;
    assert((root * root) * 4294967296 <= (a * rr) * 4294967296) by (nonlinear_arith)
        requires
            root * root <= a * rr,
    ;
    assert(a * (rr * 4294967296) == (a * rr) * 4294967296) by (nonlinear_arith);
    assert(big >= 0) by (nonlinear_arith)
        requires
            big == (r + slack) * a,
            r + slack >= 0,
            a >= 0,
    ;
    assert(small <= big) by (nonlinear_arith)
        requires
            small * small <= big * big,
            small >= 0,
            big >= 0,
    ;
}

/// The root of the discriminant of a facing ray, as a scalar, is no less
/// than the radius without the slack times the squared length of the
/// direction.
proof fn lemma_root_above(a: int, r: int, root: int, slack: int)
    requires
        4294574080 <= a <= 4295491588,
        r > 0,
        root >= 0,
        a * (r * r) < (root + 1) * (root + 1),
        slack * 65536 >= 4 * r + 65537,
    ensures
        (r - slack) * a <= root * 65536,
{
    let m = r - slack;
    if m <= 0 {
        assert(m * a <= 0) by (nonlinear_arith)
            requires
                m <= 0,
                a >= 0,
        ;
    } else if m * a > root * 65536 {
        let rr = r * r;
        let mm = m * m;
        let ma = m * a;
        let first = (root + 1) * 65536;
        let second = ma + 65536;
        // the squares of the two sides
        assert(0 < first < second);
        assert(first * first < second * second) by (nonlinear_arith)
            requires
                0 < first < second,
        ;
        assert(first * first == ((root + 1) * (root + 1)) * 4294967296) by (nonlinear_arith)
            requires
                first == (root + 1) * 65536,
        ;
        assert(((root + 1) * (root + 1)) * 4294967296 > (a * rr) * 4294967296)
            by (nonlinear_arith)
            requires
                a * rr < (root + 1) * (root + 1),
        ;
        assert(second * second == ma * ma + 131072 * ma + 4294967296) by (nonlinear_arith)
            requires
                second == ma + 65536,
        ;
        assert(ma * ma == a * (mm * a)) by (nonlinear_arith)
            requires
                ma == m * a,
                mm == m * m,
        ;
        assert(131072 * ma == a * (131072 * m)) by (nonlinear_arith)
            requires
                ma == m * a,
        ;
        // what stands beside the squared length in the square of the second
        let beside = mm * 4295491588 + 131072 * m + 2;
        assert(mm >= 0) by (nonlinear_arith)
            requires
                mm == m * m,
        ;
        assert(mm * a <= mm * 4295491588) by (nonlinear_arith)
            requires
                mm >= 0,
                a <= 4295491588,
        ;
        assert(a * (mm * a) + a * (131072 * m) + 2 * a <= a * beside) by (nonlinear_arith)
            requires
                beside == mm * 4295491588 + 131072 * m + 2,
                mm * a <= mm * 4295491588,
                a >= 0,
        ;
        assert(second * second <= a * beside);
        // and that is no more than the squared radius
        let scaled_m = m * 65536;
        let scaled_r = r * 65532;
        assert(scaled_r >= scaled_m + 65537);
        assert(scaled_r * scaled_r >= scaled_m * scaled_m + 131074 * scaled_m + 4295098369)
            by (nonlinear_arith)
            requires
                scaled_r >= scaled_m + 65537,
                scaled_m >= 0,
        ;
        assert(scaled_m * scaled_m == mm * 4294967296) by (nonlinear_arith)
            requires
                scaled_m == m * 65536,
                mm == m * m,
        ;
        assert(scaled_r * scaled_r == rr * 4294443024) by (nonlinear_arith)
            requires
                scaled_r == r * 65532,
                rr == r * r,
        ;
        assert(rr >= 0) by (nonlinear_arith)
            requires
                rr == r * r,
        ;
        assert(beside <= rr * 4294967296);
        assert(a * beside <= a * (rr * 4294967296)) by (nonlinear_arith)
            requires
                beside <= rr * 4294967296,
                a >= 0,
        ;
        assert(a * (rr * 4294967296) == (a * rr) * 4294967296) by (nonlinear_arith);
        assert(false);
    }
}

/// A hit comes before a miss, on either side, and two misses are a miss.
pub proof fn lemma_hit_before_miss(hit: HitPayload)
    requires
        hit is Hit,
    ensures
        hit.closer_spec(HitPayload::Miss) == hit,
        HitPayload::Miss.closer_spec(hit) == hit,
        HitPayload::Miss.closer_spec(HitPayload::Miss) == HitPayload::Miss,
{
}

/// Of two hits at different distances the nearer one counts, whichever is
/// taken first.
pub proof fn lemma_nearer_hit_counts(near: HitPayload, far: HitPayload)
    requires
        near matches HitPayload::Hit { hit_distance: d_near, .. } && far matches HitPayload::Hit {
            hit_distance: d_far,
            ..
        } && d_near < d_far,
    ensures
        near.closer_spec(far) == near,
        far.closer_spec(near) == near,
{
}

/// The outcome for a ray in a scene, said without the order of the shapes:
/// the ray is inside exactly where it starts inside some shape; else it
/// misses exactly where it misses every shape; else the outcome is the hit
/// of one of the shapes, and no shape is hit nearer.
pub proof fn lemma_nearest_hit_is_nearest(hittables: Seq<Hittable>, ray: Ray, clip: Range<i64>)
    ensures
        nearest_hit(hittables, ray, clip) is Inside <==> exists|i: int|
            0 <= i < hittables.len() && (#[trigger] hittables[i]).check_hit_spec(ray, clip)
                is Inside,
        nearest_hit(hittables, ray, clip) is Miss <==> forall|i: int|
            0 <= i < hittables.len() ==> (#[trigger] hittables[i]).check_hit_spec(ray, clip)
                is Miss,
        nearest_hit(hittables, ray, clip) matches HitPayload::Hit { hit_distance, .. } ==> {
            &&& exists|i: int|
                0 <= i < hittables.len() && (#[trigger] hittables[i]).check_hit_spec(ray, clip)
                    == nearest_hit(hittables, ray, clip)
            &&& forall|j: int|
                0 <= j < hittables.len() ==> ((#[trigger] hittables[j]).check_hit_spec(
                    ray,
                    clip,
                ) matches HitPayload::Hit { hit_distance: other, .. } ==> hit_distance <= other)
        },
    decreases hittables.len(),
{
    if hittables.len() > 0 {
        let front = hittables.drop_last();
        let last = hittables.last().check_hit_spec(ray, clip);
        let before = nearest_hit(front, ray, clip);
        let all = nearest_hit(hittables, ray, clip);
        lemma_nearest_hit_is_nearest(front, ray, clip);
        assert(all == before.closer_spec(last));
        assert(forall|i: int| 0 <= i < front.len() ==> front[i] == hittables[i]);
        assert(hittables[hittables.len() - 1] == hittables.last());
        if all is Inside {
            if before is Inside {
                let i = choose|i: int|
                    0 <= i < front.len() && (#[trigger] front[i]).check_hit_spec(ray, clip)
                        is Inside;
                assert(hittables[i].check_hit_spec(ray, clip) is Inside);
            } else {
                assert(hittables[hittables.len() - 1].check_hit_spec(ray, clip) is Inside);
            }
        } else {
            assert forall|i: int| 0 <= i < hittables.len() implies !((
            #[trigger] hittables[i]).check_hit_spec(ray, clip) is Inside) by {
                if i < front.len() {
                    assert(front[i].check_hit_spec(ray, clip) == hittables[i].check_hit_spec(
                        ray,
                        clip,
                    ));
                }
            }
        }
        if all is Miss {
            assert forall|i: int| 0 <= i < hittables.len() implies (
            #[trigger] hittables[i]).check_hit_spec(ray, clip) is Miss by {
                if i < front.len() {
                    assert(front[i].check_hit_spec(ray, clip) is Miss);
                }
            }
        } else if !(all is Inside) {
            assert(!(hittables[hittables.len() - 1].check_hit_spec(ray, clip) is Miss) || !(
            before is Miss));
            if !(before is Miss) {
                assert(!(before is Inside));
                let i = choose|i: int|
                    0 <= i < front.len() && (#[trigger] front[i]).check_hit_spec(ray, clip)
                        == before;
                assert(hittables[i].check_hit_spec(ray, clip) == before);
                assert(!(hittables[i].check_hit_spec(ray, clip) is Miss));
            }
        }
        if let HitPayload::Hit { hit_distance, .. } = all {
            assert(!(before is Inside) && !(last is Inside));
            if all == last {
                assert(hittables[hittables.len() - 1].check_hit_spec(ray, clip) == all);
            } else {
                assert(all == before);
                let i = choose|i: int|
                    0 <= i < front.len() && (#[trigger] front[i]).check_hit_spec(ray, clip)
                        == before;
                assert(hittables[i].check_hit_spec(ray, clip) == all);
            }
            assert forall|j: int| 0 <= j < hittables.len() implies ((
            #[trigger] hittables[j]).check_hit_spec(ray, clip) matches HitPayload::Hit {
                hit_distance: other,
                ..
            } ==> hit_distance <= other) by {
                if j < front.len() {
                    assert(front[j].check_hit_spec(ray, clip) == hittables[j].check_hit_spec(
                        ray,
                        clip,
                    ));
                }
            }
        }
    }
}

/// A hit that is the outcome for a ray in a scene lies on the ray, at a
/// distance that the clip range holds, and bears the material handle of the
/// shape that was hit.
pub proof fn lemma_nearest_hit_on_ray(hittables: Seq<Hittable>, ray: Ray, clip: Range<i64>)
    ensures
        nearest_hit(hittables, ray, clip).on_ray(ray, clip),
        nearest_hit(hittables, ray, clip) matches HitPayload::Hit { material_index, .. }
            ==> exists|i: int|
            0 <= i < hittables.len() && material_index == (
            #[trigger] hittables[i]).material_index_spec(),
{
    lemma_nearest_hit_is_nearest(hittables, ray, clip);
    let hit = nearest_hit(hittables, ray, clip);
    if hit is Hit {
        let i = choose|i: int|
            0 <= i < hittables.len() && (#[trigger] hittables[i]).check_hit_spec(ray, clip)
                == hit;
        assert(hit->material_index == hittables[i].material_index_spec());
    }
}

/// Two lists of the same shapes, in whatever order, give outcomes of one
/// kind for a ray, and hits at one distance.
pub proof fn lemma_nearest_hit_any_order(
    a: Seq<Hittable>,
    b: Seq<Hittable>,
    ray: Ray,
    clip: Range<i64>,
)
    requires
        forall|i: int| 0 <= i < a.len() ==> b.contains(#[trigger] a[i]),
        forall|j: int| 0 <= j < b.len() ==> a.contains(#[trigger] b[j]),
    ensures
        nearest_hit(a, ray, clip) is Inside <==> nearest_hit(b, ray, clip) is Inside,
        nearest_hit(a, ray, clip) is Miss <==> nearest_hit(b, ray, clip) is Miss,
        nearest_hit(a, ray, clip) matches HitPayload::Hit { hit_distance: in_a, .. } ==> (
        nearest_hit(b, ray, clip) matches HitPayload::Hit { hit_distance: in_b, .. } ==> in_a
            == in_b),
{
    lemma_nearest_hit_carries_over(a, b, ray, clip);
    lemma_nearest_hit_carries_over(b, a, ray, clip);
}

/// Where every shape of `a` is one of `b`, the outcome in `b` is inside where
/// the outcome in `a` is, no miss where the outcome in `a` is none, and no
/// farther than a hit in `a`.
proof fn lemma_nearest_hit_carries_over(
    a: Seq<Hittable>,
    b: Seq<Hittable>,
    ray: Ray,
    clip: Range<i64>,
)
    requires
        forall|i: int| 0 <= i < a.len() ==> b.contains(#[trigger] a[i]),
    ensures
        nearest_hit(a, ray, clip) is Inside ==> nearest_hit(b, ray, clip) is Inside,
        nearest_hit(b, ray, clip) is Miss ==> nearest_hit(a, ray, clip) is Miss,
        nearest_hit(a, ray, clip) matches HitPayload::Hit { hit_distance: in_a, .. } ==> (
        nearest_hit(b, ray, clip) matches HitPayload::Hit { hit_distance: in_b, .. } ==> in_b
            <= in_a),
{
    let in_a = nearest_hit(a, ray, clip);
    let in_b = nearest_hit(b, ray, clip);
    lemma_nearest_hit_is_nearest(a, ray, clip);
    lemma_nearest_hit_is_nearest(b, ray, clip);
    if !(in_a is Miss) {
        // some shape of `a` gives the outcome in `a`, and is a shape of `b`
        let i = if in_a is Inside {
            choose|i: int|
                0 <= i < a.len() && (#[trigger] a[i]).check_hit_spec(ray, clip) is Inside
        } else {
            choose|i: int| 0 <= i < a.len() && (#[trigger] a[i]).check_hit_spec(ray, clip) == in_a
        };
        assert(b.contains(a[i]));
        let j = choose|j: int| 0 <= j < b.len() && b[j] == a[i];
        assert(b[j].check_hit_spec(ray, clip) == a[i].check_hit_spec(ray, clip));
    }
}

/// Two shapes that a ray hits at different distances give the same outcome
/// in either order of registration.
pub proof fn lemma_nearest_of_two(first: Hittable, second: Hittable, ray: Ray, clip: Range<i64>)
    requires
        first.check_hit_spec(ray, clip) matches HitPayload::Hit { hit_distance: d_first, .. }
            && second.check_hit_spec(ray, clip) matches HitPayload::Hit {
            hit_distance: d_second,
            ..
        } && d_first < d_second,
    ensures
        nearest_hit(seq![first, second], ray, clip) == first.check_hit_spec(ray, clip),
        nearest_hit(seq![second, first], ray, clip) == first.check_hit_spec(ray, clip),
{
    let forth = seq![first, second];
    let back = seq![second, first];
    assert(forth.drop_last() =~= seq![first]);
    assert(back.drop_last() =~= seq![second]);
    assert(seq![first].drop_last() =~= Seq::<Hittable>::empty());
    assert(seq![second].drop_last() =~= Seq::<Hittable>::empty());
    assert(forth.last() == second && back.last() == first);
    assert(seq![first].last() == first && seq![second].last() == second);
    reveal_with_fuel(nearest_hit, 3);
}

impl vstd::std_specs::convert::FromSpecImpl<Sphere> for Hittable {
    open spec fn obeys_from_spec() -> bool {
        true
    }

    open spec fn from_spec(value: Sphere) -> Hittable {
        Hittable::Sphere(value)
    }
}

impl From<Sphere> for Hittable {
    fn from(value: Sphere) -> (r: Hittable)
        ensures
            r == Hittable::Sphere(value),
    {
        Self::Sphere(value)
    }
}

} // verus!
