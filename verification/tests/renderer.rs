use halide_raytracer::camera::Camera;
use halide_raytracer::fixed::ONE;
use halide_raytracer::geom::Ray;
use halide_raytracer::hittable::HitPayload;
use halide_raytracer::material::Material;
use halide_raytracer::renderer::{sky_color, RenderFrame, Renderer, BOUNCE_BUDGET};
use halide_raytracer::scene::{Scene, Sphere};
use halide_raytracer::util::color_rgb;
use halide_raytracer::vec3::Vec3;

const SKY: u32 = 0xffe5_b299;
const BLACK: u32 = 0xff00_0000;

fn fx(value: f64) -> i64 {
    (value * 65536.0).round() as i64
}

fn point(x: f64, y: f64, z: f64) -> Vec3 {
    Vec3::new(fx(x), fx(y), fx(z))
}

fn camera(width: u32, height: u32) -> Camera {
    let mut camera = Camera::default();
    camera.set_size(width, height);
    camera.set_position(point(0., 0.75, 4.));
    camera
}

fn demo_scene() -> Scene {
    let mut scene = Scene::default();
    let ball_material = scene.add_material(Material::Lambertian { albedo: point(0.9, 0.2, 0.1) });
    let ground_material = scene.add_material(Material::Lambertian { albedo: point(0.7, 0.7, 0.7) });
    scene.add_hittable(Sphere {
        center: point(0., 0.5, 0.),
        radius: fx(0.5),
        material_index: ball_material,
    });
    scene.add_hittable(Sphere {
        center: point(0., -10_000., 0.),
        radius: fx(10_000.),
        material_index: ground_material,
    });
    scene
}

#[test]
fn sky_color_is_fixed() {
    assert_eq!(sky_color(), point(0.6, 0.7, 0.9));
    assert_eq!(color_rgb(sky_color()), SKY);
    assert_eq!(BOUNCE_BUDGET, 16);
}

#[test]
fn new_renderer_has_no_frames() {
    let renderer = Renderer::new(40, 30).unwrap();
    assert_eq!(renderer.size(), (40, 30));
    assert_eq!(renderer.frame_count(), 0);
    assert_eq!(renderer.image_data().len(), 40 * 30);
    assert!(renderer.image_data().iter().all(|pixel| *pixel == 0));
    assert!(renderer.use_accumulation);
    assert!(renderer.num_threads() >= 1);
    assert!(renderer.is_valid());
}

#[test]
fn thread_count_follows_the_setting() {
    let mut renderer = Renderer::new(4, 4).unwrap();
    assert!(renderer.set_num_threads(2) == Ok(()));
    assert_eq!(renderer.num_threads(), 2);
    assert!(renderer.set_num_threads(1) == Ok(()));
    assert_eq!(renderer.num_threads(), 1);
    assert_eq!(renderer.size(), (4, 4));
}

#[test]
fn a_built_pool_gives_a_renderer() {
    let built = rayon::ThreadPoolBuilder::default().num_threads(3).build();
    let renderer = match Renderer::with_pool(5, 4, built) {
        Ok(renderer) => renderer,
        Err(_) => panic!("a pool was built"),
    };
    assert_eq!(renderer.size(), (5, 4));
    assert_eq!(renderer.num_threads(), 3);
    assert_eq!(renderer.frame_count(), 0);
    assert_eq!(renderer.image_data().len(), 20);
    assert!(renderer.use_accumulation);
    assert!(renderer.is_valid());
}

#[test]
fn pools_are_taken_over_or_refused() {
    let mut renderer = Renderer::new(4, 4).unwrap();
    renderer.set_num_threads(1).unwrap();
    let built = rayon::ThreadPoolBuilder::default().num_threads(3).build();
    assert!(renderer.replace_pool(built, 3) == Ok(()));
    assert_eq!(renderer.num_threads(), 3);
    // a pool for at most that many workers holds no more
    for asked in 1..6 {
        assert!(renderer.set_num_threads(asked) == Ok(()));
        assert!(renderer.num_threads() <= asked);
        assert!(renderer.num_threads() >= 1);
    }
    assert_eq!(renderer.frame_count(), 0);
    assert!(renderer.is_valid());
}

#[test]
fn empty_scene_is_all_sky() {
    let scene = Scene::default();
    let camera = camera(16, 12);
    let mut renderer = Renderer::new(16, 12).unwrap();
    let image = renderer.render(&scene, &camera).to_vec();
    assert_eq!(image.len(), 16 * 12);
    assert!(image.iter().all(|pixel| *pixel == SKY));
    assert_eq!(renderer.frame_count(), 1);
}

#[test]
fn frames_without_chance_average_to_themselves() {
    let scene = Scene::default();
    let camera = camera(8, 8);
    let mut once = Renderer::new(8, 8).unwrap();
    let mut often = Renderer::new(8, 8).unwrap();
    let one = once.render_accumulate(&scene, &camera, 1).to_vec();
    let many = often.render_accumulate(&scene, &camera, 7).to_vec();
    assert_eq!(one, many);
    assert_eq!(often.frame_count(), 7);
    // more frames on top change nothing either
    let more = often.render(&scene, &camera).to_vec();
    assert_eq!(one, more);
    assert_eq!(often.frame_count(), 8);
}

#[test]
fn absorbing_sphere_is_black_before_the_sky() {
    let mut scene = Scene::default();
    scene.add_hittable(Sphere { center: point(0., 0.75, 0.), radius: fx(0.5), material_index: 0 });
    let camera = camera(9, 9);
    let mut renderer = Renderer::new(9, 9).unwrap();
    let image = renderer.render_accumulate(&scene, &camera, 4).to_vec();
    assert_eq!(image[4 * 9 + 4], BLACK);
    assert_eq!(image[0], SKY);
    assert_eq!(image[80], SKY);
    assert!(image.iter().all(|pixel| *pixel == SKY || *pixel == BLACK || pixel >> 24 == 255));
}

#[test]
fn resize_drops_the_frames() {
    let scene = Scene::default();
    let camera = camera(6, 4);
    let mut renderer = Renderer::new(6, 4).unwrap();
    renderer.render_accumulate(&scene, &camera, 3);
    assert_eq!(renderer.frame_count(), 3);
    assert!(renderer.is_valid());
    // the same size changes nothing
    renderer.resize(6, 4);
    assert_eq!(renderer.frame_count(), 3);
    assert!(renderer.image_data().iter().all(|pixel| *pixel == SKY));
    // a new size starts over
    renderer.resize(5, 7);
    assert_eq!(renderer.size(), (5, 7));
    assert_eq!(renderer.frame_count(), 0);
    assert_eq!(renderer.image_data().len(), 35);
    assert!(renderer.image_data().iter().all(|pixel| *pixel == 0));
}

#[test]
fn reset_keeps_the_picture() {
    let scene = Scene::default();
    let camera = camera(6, 4);
    let mut renderer = Renderer::new(6, 4).unwrap();
    renderer.render_accumulate(&scene, &camera, 2);
    renderer.reset_accumulation();
    assert_eq!(renderer.frame_count(), 0);
    assert_eq!(renderer.image_data().len(), 24);
    assert!(renderer.image_data().iter().all(|pixel| *pixel == SKY));
}

#[test]
fn without_accumulation_every_call_starts_over() {
    let scene = Scene::default();
    let camera = camera(4, 4);
    let mut renderer = Renderer::new(4, 4).unwrap();
    renderer.render_accumulate(&scene, &camera, 3);
    renderer.render_accumulate(&scene, &camera, 3);
    assert_eq!(renderer.frame_count(), 6);
    renderer.use_accumulation = false;
    renderer.render_accumulate(&scene, &camera, 3);
    assert_eq!(renderer.frame_count(), 3);
    renderer.render(&scene, &camera);
    assert_eq!(renderer.frame_count(), 1);
}

#[test]
fn pixels_without_a_ray_stay_black() {
    let scene = Scene::default();
    let camera = camera(2, 2);
    let mut renderer = Renderer::new(3, 3).unwrap();
    let image = renderer.render(&scene, &camera).to_vec();
    assert_eq!(image.len(), 9);
    assert!(image[..4].iter().all(|pixel| *pixel == SKY));
    assert!(image[4..].iter().all(|pixel| *pixel == BLACK));
}

#[test]
fn two_spheres_in_the_sky() {
    let scene = demo_scene();
    let camera = camera(64, 48);
    let mut renderer = Renderer::new(64, 48).unwrap();
    let image = renderer.render(&scene, &camera).to_vec();
    assert_eq!(image.len(), 64 * 48);
    // rows run from the bottom: the last row looks over the horizon
    for x in 0..64 {
        assert_eq!(image[47 * 64 + x], SKY);
    }
    // the middle of the picture shows the ball
    let middle = image[24 * 64 + 32];
    assert!(middle != SKY);
    assert_eq!(middle >> 24, 255);
    // the ball is red: no greener and no bluer than its paint in the sky's light
    let [r, g, b, _] = middle.to_le_bytes();
    assert!(r <= 229 && g <= 51 && b <= 25);
    // the first row shows the ground
    assert!(image[0] != SKY);
}

#[test]
fn nearest_shape_wins_in_either_order() {
    let near = Sphere { center: point(0., 0., -1.5), radius: fx(0.5), material_index: 0 };
    let far = Sphere { center: point(0., 0., -3.), radius: fx(1.), material_index: 0 };
    let ray = Ray { origin: point(0., 0., 0.), direction: point(0., 0., -1.) };
    let camera = Camera::default();
    for order in [[near, far], [far, near]] {
        let mut scene = Scene::default();
        scene.add_hittable(order[0]);
        scene.add_hittable(order[1]);
        let frame = RenderFrame { scene: &scene, camera: &camera };
        match frame.trace_ray(&ray) {
            HitPayload::Hit { hit_distance, world_position, .. } => {
                assert_eq!(hit_distance, fx(1.));
                assert_eq!(world_position, point(0., 0., -1.));
            }
            _ => panic!("the ray must hit"),
        }
    }
    let empty = Scene::default();
    let frame = RenderFrame { scene: &empty, camera: &camera };
    assert!(frame.trace_ray(&ray) == HitPayload::Miss);
}

#[test]
fn radiance_of_single_rays() {
    let camera = Camera::default();
    let mut scene = Scene::default();
    let paint = scene.add_material(Material::Lambertian { albedo: point(0.5, 0.25, 0.) });
    scene.add_hittable(Sphere { center: point(0., 0., -3.), radius: fx(1.), material_index: paint });
    scene.add_hittable(Sphere { center: point(5., 0., -3.), radius: fx(1.), material_index: 0 });
    let frame = RenderFrame { scene: &scene, camera: &camera };
    let at_paint = Ray { origin: point(0., 0., 0.), direction: point(0., 0., -1.) };
    let at_null = Ray { origin: point(5., 0., 0.), direction: point(0., 0., -1.) };
    let at_sky = Ray { origin: point(0., 0., 0.), direction: point(0., 1., 0.) };
    let inside = Ray { origin: point(0., 0., -3.), direction: point(0., 1., 0.) };
    assert_eq!(frame.per_pixel(at_sky), sky_color());
    assert_eq!(frame.per_pixel(at_null), Vec3::new(0, 0, 0));
    assert_eq!(frame.per_pixel(inside), Vec3::new(0, 0, 0));
    assert_eq!(frame.ray_color(at_sky, 0), Vec3::new(0, 0, 0));
    let mut lit = false;
    for _ in 0..50 {
        let color = frame.per_pixel(at_paint);
        assert!(0 <= color.x && color.x <= ONE / 2);
        assert!(0 <= color.y && color.y <= ONE / 4);
        assert_eq!(color.z, 0);
        lit |= color.x > 0;
    }
    assert!(lit);
    let mut sum = Vec3::new(ONE, ONE, ONE);
    frame.accumulate_pixel(&mut sum, at_sky);
    assert_eq!(sum, Vec3::new(ONE, ONE, ONE).plus(sky_color()));
}

#[test]
fn centre_pixels_show_a_shape_from_sixteen_pixels_on() {
    let scene = demo_scene();
    for (width, height) in [(16u32, 16u32), (17, 16), (16, 33), (64, 48), (33, 200)] {
        let camera = camera(width, height);
        let frame = RenderFrame { scene: &scene, camera: &camera };
        let centre = ((height / 2) * width + width / 2) as usize;
        for jx in (0..ONE).step_by(8192) {
            for jy in (0..ONE).step_by(8192) {
                let directions = camera.ray_directions((jx, jy));
                let ray = Ray { origin: camera.position(), direction: directions[centre] };
                assert!(frame.trace_ray(&ray) != HitPayload::Miss);
            }
        }
        let mut renderer = Renderer::new(width, height).unwrap();
        let image = renderer.render(&scene, &camera).to_vec();
        assert!(image[centre] != SKY);
    }
    // a picture of two by two pixels is too coarse: its centre pixel reaches past the shapes
    let camera = camera(2, 2);
    let frame = RenderFrame { scene: &scene, camera: &camera };
    let directions = camera.ray_directions((0, ONE / 2));
    let ray = Ray { origin: camera.position(), direction: directions[3] };
    assert!(frame.trace_ray(&ray) == HitPayload::Miss);
}
