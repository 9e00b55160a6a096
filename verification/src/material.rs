//! How a surface answers a ray that hits it.

use crate::fixed::{lemma_mul_floor_within, mul_floor, ONE};
use crate::geom::Ray;
use crate::hittable::HitPayload;
use crate::util::Vec3Ext;
use crate::vec3::Vec3;
use vstd::prelude::*;

verus! {

/// How far along its new direction a scattered ray starts from the surface, so
/// that rounding does not make it hit the same surface again.
pub const SCATTER_OFFSET: i64 = 66;

/// The materials of a scene.
#[derive(Clone, Copy, Debug, PartialEq, Eq, Structural)]
pub enum Material {
    /// Absorbs every ray.
    Null,
    /// Scatters every ray diffusely and tints it with `albedo`.
    Lambertian { albedo: Vec3 },
}

/// A scattered ray, and the colour that what it gathers is multiplied with.
#[derive(Clone, Copy, Debug, PartialEq, Eq, Structural)]
pub struct ScatterPayload {
    pub ray: Ray,
    pub attenuation: Vec3,
}

impl ScatterPayload {
    /// What holds of every scattered ray, whatever direction was drawn: its
    /// direction is normalized and leaves the surface on the side of the
    /// normal, it starts off the hit by `scatter_offset`, which is on the
    /// side of the normal too, and it is tinted with the material's colour.
    pub open spec fn follows(self, material: Material, hit: HitPayload) -> bool {
        &&& self.ray.direction.within(ONE as int)
        &&& self.ray.direction.is_normalized_spec()
        &&& hit matches HitPayload::Hit { world_position, world_normal, .. } && self.ray.origin
            == world_position.plus_spec(scatter_offset(self.ray.direction, world_normal))
            && self.ray.direction.dot_spec(world_normal) >= 0 && self.ray.origin.minus_spec(
            world_position,
        ).dot_spec(world_normal) >= 0
        &&& material matches Material::Lambertian { albedo } && self.attenuation == albedo
    }
}

/// Whether every channel of a colour lies in `0 ..= ONE`.
pub open spec fn is_color(c: Vec3) -> bool {
    &&& 0 <= c.x <= ONE
    &&& 0 <= c.y <= ONE
    &&& 0 <= c.z <= ONE
}

/// The direction of a diffusely scattered ray: the direction of `normal +
/// unit`. Where the two cancel, and where rounding has turned their sum into
/// the surface, it is `normal` itself.
pub open spec fn bounce_direction(normal: Vec3, unit: Vec3) -> Vec3 {
    match normal.plus_spec(unit).try_normalize_spec() {
        Some(direction) => if direction.dot_spec(normal) < 0 {
            normal
        } else {
            direction
        },
        None => normal,
    }
}

/// How far off the hit a scattered ray starts: `SCATTER_OFFSET` along its
/// direction, each component rounded down. Where rounding has turned that
/// step into the surface, the step is along the normal.
pub open spec fn scatter_offset(direction: Vec3, normal: Vec3) -> Vec3 {
    if direction.scaled_spec(SCATTER_OFFSET).dot_spec(normal) < 0 {
        normal.scaled_spec(SCATTER_OFFSET)
    } else {
        direction.scaled_spec(SCATTER_OFFSET)
    }
}

/// A step along a vector does not point against the vector, however its
/// components are rounded.
pub proof fn lemma_step_along(normal: Vec3, length: i64)
    requires
        length >= 0,
    ensures
        mul_floor(normal.x as int, length as int) * normal.x + mul_floor(
            normal.y as int,
            length as int,
        ) * normal.y + mul_floor(normal.z as int, length as int) * normal.z >= 0,
{
    lemma_step_term(normal.x as int, length as int);
    lemma_step_term(normal.y as int, length as int);
    lemma_step_term(normal.z as int, length as int);
}

/// A rounded multiple of a number by a factor that is not negative has the
/// number's sign.
proof fn lemma_step_term(n: int, k: int)
    requires
        k >= 0,
    ensures
        mul_floor(n, k) * n >= 0,
{
    let q = mul_floor(n, k);
    vstd::arithmetic::div_mod::lemma_fundamental_div_mod(n * k, ONE as int);
    if n >= 0 {
        assert(n * k >= 0) by (nonlinear_arith)
            requires
                n >= 0,
                k >= 0,
        ;
        assert(q >= 0);
        assert(q * n >= 0) by (nonlinear_arith)
            requires
                q >= 0,
                n >= 0,
        ;
    } else {
        assert(n * k <= 0) by (nonlinear_arith)
            requires
                n < 0,
                k >= 0,
        ;
        assert(q <= 0);
        assert(q * n >= 0) by (nonlinear_arith)
            requires
                q <= 0,
                n < 0,
        ;
    }
}

/// A diffusely scattered ray leaves the surface on the side of the normal,
/// whatever direction was drawn, and its direction is normalized.
pub proof fn lemma_bounce_leaves_surface(normal: Vec3, unit: Vec3)
    requires
        normal.within(ONE as int),
        normal.is_normalized_spec(),
        unit.within(ONE as int),
    ensures
        bounce_direction(normal, unit).dot_spec(normal) >= 0,
        bounce_direction(normal, unit).is_normalized_spec(),
        bounce_direction(normal, unit).within(ONE as int),
{
    assert(0 <= normal.x * normal.x && 0 <= normal.y * normal.y && 0 <= normal.z * normal.z)
        by (nonlinear_arith);
    crate::vec3::lemma_try_normalize(normal.plus_spec(unit));
}

/// What a diffuse surface of colour `albedo` answers to a hit, if `unit` is
/// the random direction drawn for it.
pub open spec fn scattered_toward(hit: HitPayload, albedo: Vec3, unit: Vec3) -> Option<
    ScatterPayload,
> {
    match hit {
        HitPayload::Hit { world_normal, world_position, .. } => {
            let direction = bounce_direction(world_normal, unit);
            Some(
                ScatterPayload {
                    ray: Ray {
                        origin: world_position.plus_spec(scatter_offset(direction, world_normal)),
                        direction,
                    },
                    attenuation: albedo,
                },
            )
        },
        _ => None,
    }
}

impl Material {
    /// Whether the material's colour is one.
    pub open spec fn wf(self) -> bool {
        match self {
            Material::Null => true,
            Material::Lambertian { albedo } => is_color(albedo),
        }
    }

    /// Tells whether the material is well-formed.
    pub fn is_valid(&self) -> (r: bool)
        ensures
            r == self.wf(),
    {
        match self {
            Material::Null => true,
            Material::Lambertian { albedo } => 0 <= albedo.x && albedo.x <= ONE && 0
                <= albedo.y && albedo.y <= ONE && 0 <= albedo.z && albedo.z <= ONE,
        }
    }

    /// Scatters the ray that made `hit`: nothing where the material absorbs
    /// it, else the new ray and its attenuation. The new direction is random.
    #[inline]
    pub fn scatter(&self, hit: &HitPayload, _ray: &Ray) -> (r: Option<ScatterPayload>)
        requires
            hit.wf(),
        ensures
            *self is Null || !(*hit is Hit) ==> r is None,
            self matches Material::Lambertian { albedo } ==> (*hit is Hit ==> exists|unit: Vec3|
                #[trigger] unit.is_direction() && r == scattered_toward(*hit, *albedo, unit)),
            r matches Some(scatter) ==> scatter.follows(*self, *hit),
    {
        match self {
            Material::Null => None,
            Material::Lambertian { albedo } => self.scatter_lambertian(hit, albedo),
        }
    }

    #[inline]
    fn scatter_lambertian(&self, hit: &HitPayload, albedo: &Vec3) -> (r: Option<ScatterPayload>)
        requires
            hit.wf(),
        ensures
            !(*hit is Hit) ==> r is None,
            *hit is Hit ==> exists|unit: Vec3| #[trigger]
                unit.is_direction() && r == scattered_toward(*hit, *albedo, unit),
            r matches Some(scatter) ==> scatter.follows(
                Material::Lambertian { albedo: *albedo },
                *hit,
            ),
    {
        match hit {
            HitPayload::Hit { .. } => {
                let unit = Vec3::random_unit();
                assert(unit.is_direction());
                Self::scatter_toward(hit, albedo, unit)
            },
            HitPayload::Miss => None,
            HitPayload::Inside => None,
        }
    }

    /// Scatters a hit on a diffuse surface of colour `albedo` towards the
    /// direction `unit`.
    pub fn scatter_toward(hit: &HitPayload, albedo: &Vec3, unit: Vec3) -> (r: Option<
        ScatterPayload,
    >)
        requires
            hit.wf(),
            unit.within(ONE as int),
        ensures
            r == scattered_toward(*hit, *albedo, unit),
            r matches Some(scatter) ==> scatter.follows(
                Material::Lambertian { albedo: *albedo },
                *hit,
            ),
    {
        match hit {
            HitPayload::Hit { world_normal, world_position, .. } => {
                let direction = match world_normal.plus(unit).try_normalize() {
                    Some(direction) => if direction.dot(*world_normal) < 0 {
                        *world_normal
                    } else {
                        direction
                    },
                    None => *world_normal,
                };
                proof {
                    assert(0 <= world_normal.x * world_normal.x && 0 <= world_normal.y
                        * world_normal.y && 0 <= world_normal.z * world_normal.z)
                        by (nonlinear_arith);
                    lemma_mul_floor_within(direction.x as int, SCATTER_OFFSET as int, 0x1_0000, 66);
                    lemma_mul_floor_within(direction.y as int, SCATTER_OFFSET as int, 0x1_0000, 66);
                    lemma_mul_floor_within(direction.z as int, SCATTER_OFFSET as int, 0x1_0000, 66);
                    lemma_mul_floor_within(
                        world_normal.x as int,
                        SCATTER_OFFSET as int,
                        0x1_0000,
                        66,
                    );
                    lemma_mul_floor_within(
                        world_normal.y as int,
                        SCATTER_OFFSET as int,
                        0x1_0000,
                        66,
                    );
                    lemma_mul_floor_within(
                        world_normal.z as int,
                        SCATTER_OFFSET as int,
                        0x1_0000,
                        66,
                    );
                    lemma_step_along(*world_normal, SCATTER_OFFSET);
                }
                let along = direction.scaled(SCATTER_OFFSET);
                let offset = if along.dot(*world_normal) < 0 {
                    world_normal.scaled(SCATTER_OFFSET)
                } else {
                    along
                };
                let scatter_ray = Ray { origin: world_position.plus(offset), direction };
                assert(scatter_ray.origin.minus_spec(*world_position) == offset);
                Some(ScatterPayload { ray: scatter_ray, attenuation: *albedo })
            },
            HitPayload::Miss => None,
            HitPayload::Inside => None,
        }
    }
}

} // verus!
