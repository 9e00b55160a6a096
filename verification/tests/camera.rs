use halide_raytracer::camera::{frame_holds, Camera, Rotation};
use halide_raytracer::fixed::ONE;
use halide_raytracer::halton::Halton;
use halide_raytracer::vec3::Vec3;

fn fx(value: f64) -> i64 {
    (value * 65536.0).round() as i64
}

fn point(x: f64, y: f64, z: f64) -> Vec3 {
    Vec3::new(fx(x), fx(y), fx(z))
}

#[test]
fn default_camera() {
    let camera = Camera::default();
    assert_eq!(camera.position(), point(0., 0., 3.));
    assert_eq!(camera.look_direction(), point(0., 0., -1.));
    assert_eq!(camera.vertical_fov(), fx(25.));
    assert!((camera.half_fov_tangent() as f64 / 65536.0 - (12.5f64).to_radians().tan()).abs() < 1e-5);
    assert_eq!(camera.size(), [640, 480]);
    assert_eq!(*camera.look_clip(), fx(0.01)..fx(100.));
    assert_eq!(camera.aspect_ratio(), 87381);
    assert!(camera.is_valid());
}

#[test]
fn setters_store_what_they_are_given() {
    let mut camera = Camera::default();
    camera.set_position(point(0., 0.75, 4.));
    assert_eq!(camera.position(), point(0., 0.75, 4.));
    camera.set_vertical_fov(fx(90.), ONE);
    assert_eq!(camera.vertical_fov(), fx(90.));
    assert_eq!(camera.half_fov_tangent(), ONE);
    camera.set_size(1920, 1080);
    assert_eq!(camera.size(), [1920, 1080]);
    camera.set_look_clip(fx(1.)..fx(10.));
    assert_eq!(*camera.look_clip(), fx(1.)..fx(10.));
    assert!(camera.is_valid());
    camera.set_position(point(0., 2_000_000., 0.));
    assert!(!camera.is_valid());
}

#[test]
fn look_direction_is_normalized() {
    let mut camera = Camera::default();
    camera.set_look_direction(point(5., 0., 0.));
    assert_eq!(camera.look_direction(), point(1., 0., 0.));
    // a vector without a direction changes nothing
    camera.set_look_direction(point(0., 0., 0.));
    assert_eq!(camera.look_direction(), point(1., 0., 0.));
    // the camera's right turns with it: a move to the right goes along +Z
    camera.set_position(point(0., 0., 0.));
    camera.relative_move(point(1., 0., 0.), fx(0.5));
    assert_eq!(camera.position(), point(0., 0., 1.));
}

#[test]
fn moves_follow_the_camera_axes() {
    let mut camera = Camera::default();
    assert_eq!(*camera.relative_move(point(1., 0., 0.), fx(0.5)), point(1., 0., 3.));
    assert_eq!(*camera.relative_move(point(0., 1., 0.), fx(1.)), point(1., 2., 3.));
    assert_eq!(*camera.relative_move(point(0., 0., 1.), fx(0.25)), point(1., 2., 2.5));
    assert_eq!(camera.position(), point(1., 2., 2.5));
}

#[test]
fn quarter_turns() {
    let quarter = Rotation { sine: ONE, cosine: 0 };
    let none = Rotation { sine: 0, cosine: ONE };
    assert!(quarter.is_valid());
    assert!(!Rotation { sine: 2 * ONE, cosine: 0 }.is_valid());

    let mut camera = Camera::default();
    assert_eq!(*camera.relative_turn(none, none), point(0., 0., -1.));
    // a yaw to the left
    assert_eq!(*camera.relative_turn(none, quarter), point(-1., 0., 0.));
    assert_eq!(camera.look_direction(), point(-1., 0., 0.));
    // a pitch upwards
    assert_eq!(*camera.relative_turn(quarter, none), point(0., 1., 0.));
    // the camera's right is still at right angles: it points along -Z
    camera.set_position(point(0., 0., 0.));
    camera.relative_move(point(1., 0., 0.), fx(0.5));
    assert_eq!(camera.position(), point(0., 0., -1.));
}

#[test]
fn turn_angles_scale_with_time() {
    assert_eq!(Camera::turn_angles([0, 0], fx(1.)), [0, 0]);
    let angles = Camera::turn_angles([fx(1.), fx(-10.)], fx(0.5));
    assert!((angles[0] as f64 / 65536.0 - 0.1).abs() < 1e-4);
    assert!((angles[1] as f64 / 65536.0 + 1.0).abs() < 1e-3);
}

#[test]
fn one_direction_per_pixel() {
    let mut camera = Camera::default();
    camera.set_size(2, 2);
    camera.set_vertical_fov(fx(90.), ONE);
    // with half a pixel of jitter the samples lie on the pixels' lower left corners
    let directions = camera.ray_directions((ONE / 2, ONE / 2));
    assert_eq!(directions.len(), 4);
    // the last pixel's corner is the middle of the picture
    assert_eq!(directions[3], point(0., 0., -1.));
    // the first pixel's corner is the picture's: one to the left, one down
    let corner = Vec3::new(-ONE, -ONE, -ONE).try_normalize().unwrap();
    assert_eq!(directions[0], corner);
    // rows run from the bottom upwards, each row from the left
    assert_eq!(directions[1], Vec3::new(0, -ONE, -ONE).try_normalize().unwrap());
    assert_eq!(directions[2], Vec3::new(-ONE, 0, -ONE).try_normalize().unwrap());
}

#[test]
fn wide_pictures_see_further_sideways() {
    let mut camera = Camera::default();
    camera.set_size(4, 2);
    camera.set_vertical_fov(fx(90.), ONE);
    let directions = camera.ray_directions((ONE / 2, ONE / 2));
    assert_eq!(directions.len(), 8);
    assert_eq!(directions[0], Vec3::new(-2 * ONE, -ONE, -ONE).try_normalize().unwrap());
    assert_eq!(directions[6], point(0., 0., -1.));
}

#[test]
fn each_frame_draws_the_next_jitter_sample() {
    let mut camera = Camera::default();
    camera.set_size(8, 6);
    // the sampler of bases 2 and 3 starts behind its first six points
    let first = camera.get_ray_directions();
    assert_eq!(first, camera.ray_directions((7 * ONE / 8, 5 * ONE / 9)));
    let second = camera.get_ray_directions();
    assert_eq!(second, camera.ray_directions((ONE / 16, 8 * ONE / 9)));
    assert!(first != second);
    assert_eq!(first.len(), 48);
}

#[test]
fn looking_straight_up_keeps_a_frame() {
    let mut camera = Camera::default();
    camera.set_size(2, 2);
    camera.set_look_direction(point(0., 1., 0.));
    assert_eq!(camera.look_direction(), point(0., 1., 0.));
    let directions = camera.ray_directions((ONE / 2, ONE / 2));
    assert_eq!(directions[3], point(0., 1., 0.));
    assert!(directions[0] != directions[3]);
}

#[test]
fn axes_stay_a_frame() {
    let mut camera = Camera::default();
    assert!(camera.is_oriented());
    // many small turns leave the axes a frame
    let step = Rotation { sine: fx((0.01f64).sin()), cosine: fx((0.01f64).cos()) };
    let none = Rotation { sine: 0, cosine: ONE };
    let mut last = camera.look_direction();
    for _ in 0..300 {
        camera.relative_turn(step, step);
        let look = camera.look_direction();
        assert!(look != last);
        assert!(look.is_normalized());
        last = look;
    }
    camera.relative_turn(none, none);
    assert!(camera.is_oriented());
    // an arbitrary look direction
    camera.set_look_direction(point(0.3, -0.2, 0.9));
    let look = camera.look_direction();
    assert!(look.is_normalized());
    assert!((look.x as f64 / 65536.0 - 0.3 / (0.94f64).sqrt()).abs() < 1e-4);
    // the shortest vector has a direction too
    camera.set_look_direction(Vec3::new(1, 1, 1));
    let look = camera.look_direction();
    assert!(look.is_normalized());
    assert!(look.x == look.y && look.y == look.z);
    assert!((look.x as f64 / 65536.0 - (1f64 / 3.).sqrt()).abs() < 1e-4);
    assert!(camera.is_oriented());
}

#[test]
fn frames_are_told_from_other_triples() {
    let x = point(1., 0., 0.);
    let y = point(0., 1., 0.);
    let z = point(0., 0., 1.);
    assert!(frame_holds(z.negated(), x, y));
    assert!(frame_holds(x, z, y));
    // the wrong hand
    assert!(!frame_holds(z, x, y));
    // not at right angles
    assert!(!frame_holds(z.negated(), x, Vec3::new(ONE / 2, 56756, 0)));
    // not normalized
    assert!(!frame_holds(z.negated(), x, y.scaled(ONE / 2)));
    assert!(!frame_holds(z.negated(), x, y.scaled(2 * ONE)));
}

#[test]
fn every_direction_can_be_looked_along() {
    let mut camera = Camera::default();
    // bring the camera's up axis off the world's axes
    camera.set_look_direction(Vec3::new(48608, -34965, 26639));
    assert!(camera.is_oriented());
    // directions next to the camera's own up axis, and the axes themselves
    let mut last = camera.look_direction();
    for wanted in [
        Vec3::new(30660753, 55429027, 16805978),
        Vec3::new(30662, 55429, 16804),
        Vec3::new(0, 1, 0),
        Vec3::new(0, -7, 0),
        Vec3::new(1, 0, 0),
        Vec3::new(0, 0, -1 << 40),
        Vec3::new(3, -4, 12),
    ] {
        camera.set_look_direction(wanted);
        assert_eq!(Some(camera.look_direction()), wanted.try_normalize());
        assert!(camera.look_direction() != last);
        assert!(camera.is_oriented());
        last = camera.look_direction();
    }
}

#[test]
fn turns_by_nothing_change_nothing() {
    let none = Rotation { sine: 0, cosine: ONE };
    let mut camera = Camera::default();
    camera.relative_turn(none, Rotation { sine: ONE, cosine: -13 });
    camera.relative_turn(Rotation { sine: 12345, cosine: 64362 }, none);
    let look = camera.look_direction();
    camera.set_position(point(0., 0., 0.));
    let right = *camera.relative_move(point(1., 0., 0.), fx(0.5));
    for _ in 0..20_000 {
        camera.relative_turn(none, none);
    }
    assert_eq!(camera.look_direction(), look);
    camera.set_position(point(0., 0., 0.));
    assert_eq!(*camera.relative_move(point(1., 0., 0.), fx(0.5)), right);
}

#[test]
fn a_given_sampler_moves_on_by_one_sample() {
    let mut camera = Camera::default();
    camera.set_size(4, 3);
    let mut sampler = Halton::two_d((2, 3));
    let first = camera.ray_directions_drawing(&mut sampler);
    assert_eq!(first, camera.ray_directions((7 * ONE / 8, 5 * ONE / 9)));
    let second = camera.ray_directions_drawing(&mut sampler);
    assert_eq!(second, camera.ray_directions((ONE / 16, 8 * ONE / 9)));
    // the sampler is at its third point
    let mut fresh = Halton::two_d((2, 3));
    fresh.next();
    fresh.next();
    assert_eq!(sampler.next(), fresh.next());
}
