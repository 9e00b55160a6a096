use halide_raytracer::fixed::ONE;
use halide_raytracer::geom::Ray;
use halide_raytracer::hittable::{FaceSide, HitPayload, Hittable};
use halide_raytracer::material::{Material, ScatterPayload, SCATTER_OFFSET};
use halide_raytracer::scene::{Scene, Sphere};
use halide_raytracer::vec3::Vec3;

fn fx(value: f64) -> i64 {
    (value * 65536.0).round() as i64
}

fn point(x: f64, y: f64, z: f64) -> Vec3 {
    Vec3::new(fx(x), fx(y), fx(z))
}

fn hit_on_floor() -> HitPayload {
    HitPayload::Hit {
        hit_distance: fx(1.),
        world_normal: point(0., 1., 0.),
        world_position: point(2., 0., -3.),
        material_index: 1,
        side: FaceSide::Front,
    }
}

#[test]
fn new_scene_holds_the_null_material() {
    let scene = Scene::default();
    assert_eq!(scene.hittables().len(), 0);
    assert_eq!(scene.materials().len(), 1);
    assert!(*scene.material(0) == Material::Null);
    assert!(scene.is_valid());
}

#[test]
fn handles_are_insertion_indices() {
    let mut scene = Scene::default();
    let red = Material::Lambertian { albedo: point(0.9, 0.2, 0.1) };
    let grey = Material::Lambertian { albedo: point(0.7, 0.7, 0.7) };
    assert_eq!(scene.add_material(red), 1);
    assert_eq!(scene.add_material(grey), 2);
    let ball = Sphere { center: point(0., 0.5, 0.), radius: fx(0.5), material_index: 1 };
    let ground = Sphere { center: point(0., -10000., 0.), radius: fx(10000.), material_index: 2 };
    assert_eq!(scene.add_hittable(ball), 0);
    assert_eq!(scene.add_hittable(Hittable::Sphere(ground)), 1);
    assert!(*scene.hittable(0) == Hittable::Sphere(ball));
    assert!(*scene.hittable(1) == Hittable::Sphere(ground));
    assert!(*scene.material(0) == Material::Null);
    assert!(*scene.material(1) == red);
    assert!(*scene.material(2) == grey);
    assert_eq!(scene.hittables().len(), 2);
    assert_eq!(scene.materials().len(), 3);
    assert!(scene.is_valid());
}

#[test]
fn entries_change_in_place() {
    let mut scene = Scene::default();
    let ball = Sphere { center: point(0., 0.5, 0.), radius: fx(0.5), material_index: 0 };
    scene.add_hittable(ball);
    match &mut scene.hittables_mut()[0] {
        Hittable::Sphere(sphere) => sphere.radius = fx(2.),
    }
    assert!(*scene.hittable(0) == Hittable::Sphere(Sphere { radius: fx(2.), ..ball }));
    scene.materials_mut()[0] = Material::Lambertian { albedo: point(0.5, 0.5, 0.5) };
    assert!(*scene.material(0) == Material::Lambertian { albedo: point(0.5, 0.5, 0.5) });
}

#[test]
fn scene_with_a_dangling_material_is_not_valid() {
    let mut scene = Scene::default();
    scene.add_hittable(Sphere { center: point(0., 0., 0.), radius: ONE, material_index: 1 });
    assert!(!scene.is_valid());
    scene.add_material(Material::Lambertian { albedo: point(0.5, 0.5, 0.5) });
    assert!(scene.is_valid());
    scene.add_material(Material::Lambertian { albedo: point(1.5, 0.5, 0.5) });
    assert!(!scene.is_valid());
}

#[test]
fn null_material_absorbs() {
    let ray = Ray::default();
    assert!(Material::Null.scatter(&hit_on_floor(), &ray).is_none());
    assert!(Material::Null.scatter(&HitPayload::Miss, &ray).is_none());
    assert!(Material::Null.is_valid());
}

#[test]
fn lambertian_scatters_hits_only() {
    let ray = Ray::default();
    let albedo = point(0.9, 0.2, 0.1);
    let paint = Material::Lambertian { albedo };
    assert!(paint.scatter(&HitPayload::Miss, &ray).is_none());
    assert!(paint.scatter(&HitPayload::Inside, &ray).is_none());
    for _ in 0..100 {
        let scatter = paint.scatter(&hit_on_floor(), &ray).unwrap();
        assert_eq!(scatter.attenuation, albedo);
        let d = scatter.ray.direction;
        assert!(d.x.abs() <= ONE && d.y.abs() <= ONE && d.z.abs() <= ONE);
        // the new ray leaves the surface on the side of the normal
        assert!(d.y >= 0);
        assert_eq!(scatter.ray.origin, point(2., 0., -3.).plus(d.scaled(SCATTER_OFFSET)));
    }
}

#[test]
fn scattered_rays_leave_on_the_side_of_the_normal() {
    let albedo = point(0.5, 0.5, 0.5);
    // a hit whose normal is askew, and directions that all but cancel it
    let normal = Vec3::new(3, -4, 12).try_normalize().unwrap();
    let hit = HitPayload::Hit {
        hit_distance: fx(1.),
        world_normal: normal,
        world_position: point(2., 0., -3.),
        material_index: 1,
        side: FaceSide::Front,
    };
    let against = normal.negated();
    for nudge in [(0, 0, 0), (1, 0, 0), (0, -1, 0), (-2, 3, 1), (5, 5, -5), (-40, 0, 9)] {
        let unit = Vec3::new(against.x + nudge.0, against.y + nudge.1, against.z + nudge.2);
        let scatter = Material::scatter_toward(&hit, &albedo, unit).unwrap();
        assert!(scatter.ray.direction.dot(normal) >= 0);
        assert!(scatter.ray.direction.is_normalized());
    }
    let inward = Vec3::new(-ONE, -ONE, -ONE);
    let scatter = Material::scatter_toward(&hit_on_floor(), &albedo, inward).unwrap();
    assert!(scatter.ray.direction.y >= 0);
}

#[test]
fn scattered_rays_start_on_the_side_of_the_normal() {
    let albedo = point(0.5, 0.5, 0.5);
    let normal = Vec3::new(0, 32767, 181).try_normalize().unwrap();
    assert_eq!(normal, Vec3::new(0, 65535, 362));
    let hit = HitPayload::Hit {
        hit_distance: fx(1.),
        world_normal: normal,
        world_position: Vec3::new(0, 0, 0),
        material_index: 1,
        side: FaceSide::Front,
    };
    let drawn = Vec3::new(0, -60000, 330).try_normalize().unwrap();
    let scatter = Material::scatter_toward(&hit, &albedo, drawn).unwrap();
    assert!(scatter.ray.direction.dot(normal) >= 0);
    // a step along the direction would end under the surface: the ray
    // starts a step along the normal
    assert!(scatter.ray.direction.scaled(SCATTER_OFFSET).dot(normal) < 0);
    assert_eq!(scatter.ray.origin, normal.scaled(SCATTER_OFFSET));
    assert!(scatter.ray.origin.dot(normal) >= 0);
    // other draws around the tangent
    for z in -400..400 {
        let unit = Vec3::new(0, -65536, z);
        let scatter = Material::scatter_toward(&hit, &albedo, unit).unwrap();
        assert!(scatter.ray.origin.dot(normal) >= 0);
        assert!(scatter.ray.direction.dot(normal) >= 0);
    }
}

#[test]
fn scatter_toward_a_given_direction() {
    let albedo = point(0.7, 0.7, 0.7);
    let up = point(0., 1., 0.);
    let scatter = Material::scatter_toward(&hit_on_floor(), &albedo, up).unwrap();
    let expected = ScatterPayload {
        ray: Ray { origin: Vec3::new(fx(2.), 66, fx(-3.)), direction: up },
        attenuation: albedo,
    };
    assert!(scatter == expected);
    // a drawn direction that cancels the normal leaves the normal
    let back = Material::scatter_toward(&hit_on_floor(), &albedo, point(0., -1., 0.)).unwrap();
    assert_eq!(back.ray.direction, up);
    assert!(Material::scatter_toward(&HitPayload::Miss, &albedo, up).is_none());
}
