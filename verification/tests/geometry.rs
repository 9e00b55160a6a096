use halide_raytracer::fixed::{floor_div, isqrt, mul_fixed, ONE};
use halide_raytracer::geom::Ray;
use halide_raytracer::hittable::{clip_is_valid, FaceSide, HitPayload, Hittable};
use halide_raytracer::scene::Sphere;
use halide_raytracer::util::{
    color_rgb, color_rgba, coordinate_of, first_direction, first_in_ball, top_down_bytes, Vec3Ext,
};
use halide_raytracer::vec3::Vec3;

fn fx(value: f64) -> i64 {
    (value * 65536.0).round() as i64
}

fn as_float(value: i64) -> f64 {
    value as f64 / 65536.0
}

fn point(x: f64, y: f64, z: f64) -> Vec3 {
    Vec3::new(fx(x), fx(y), fx(z))
}

fn sphere(center: Vec3, radius: f64, material_index: usize) -> Hittable {
    Hittable::Sphere(Sphere { center, radius: fx(radius), material_index })
}

#[test]
fn reflect() {
    let x = Vec3::new(ONE, 0, 0);
    let normal = Vec3::new(ONE, ONE, 0).try_normalize().unwrap();
    assert!(normal.is_normalized());
    let y = x.reflect(normal);
    assert!((as_float(y.x) - 0.0).abs() <= 0.001);
    assert!((as_float(y.y) - 1.0).abs() <= 0.001);
    assert!((as_float(y.z) - 0.0).abs() <= 0.001);
}

#[test]
fn floor_division_rounds_down() {
    assert_eq!(floor_div(7, 2), 3);
    assert_eq!(floor_div(-7, 2), -4);
    assert_eq!(floor_div(-8, 2), -4);
    assert_eq!(floor_div(0, 5), 0);
    assert_eq!(floor_div(-1, 65536), -1);
}

#[test]
fn integer_square_roots() {
    assert_eq!(isqrt(0), 0);
    assert_eq!(isqrt(1), 1);
    assert_eq!(isqrt(3), 1);
    assert_eq!(isqrt(4), 2);
    assert_eq!(isqrt(99), 9);
    assert_eq!(isqrt(1 << 64), 1 << 32);
    assert_eq!(isqrt(u128::MAX), (1u128 << 64) - 1);
}

#[test]
fn fixed_products_round_down() {
    assert_eq!(mul_fixed(ONE, ONE), ONE);
    assert_eq!(mul_fixed(ONE / 2, ONE / 2), ONE / 4);
    assert_eq!(mul_fixed(-1, 1), -1);
    assert_eq!(mul_fixed(3 * ONE, -2 * ONE), -6 * ONE);
}

#[test]
fn vector_arithmetic() {
    let a = Vec3::new(ONE, 2 * ONE, 3 * ONE);
    let b = Vec3::new(4 * ONE, 5 * ONE, 6 * ONE);
    assert_eq!(a.plus(b), Vec3::new(5 * ONE, 7 * ONE, 9 * ONE));
    assert_eq!(b.minus(a), Vec3::splat(3 * ONE));
    assert_eq!(a.negated(), Vec3::new(-ONE, -2 * ONE, -3 * ONE));
    assert_eq!(a.scaled(ONE / 2), Vec3::new(ONE / 2, ONE, 3 * ONE / 2));
    assert_eq!(a.times(b), Vec3::new(4 * ONE, 10 * ONE, 18 * ONE));
    assert_eq!(a.divided(2), Vec3::new(ONE / 2, ONE, 3 * ONE / 2));
    assert_eq!(a.dot(b), 32 * (ONE as i128) * (ONE as i128));
    assert_eq!(a.length_squared(), 14 * (ONE as i128) * (ONE as i128));
    assert_eq!(
        Vec3::new(ONE, 0, 0).cross(Vec3::new(0, ONE, 0)),
        Vec3::new(0, 0, ONE)
    );
}

#[test]
fn normalizing() {
    assert_eq!(Vec3::new(0, 0, 0).try_normalize(), None);
    assert_eq!(Vec3::new(0, 5 * ONE, 0).try_normalize(), Some(Vec3::new(0, ONE, 0)));
    assert_eq!(Vec3::new(0, 0, -7).try_normalize(), Some(Vec3::new(0, 0, -ONE)));
    // short vectors and long ones have normalized directions
    for v in [Vec3::new(1, 1, 1), Vec3::new(-1, 2, 0), Vec3::new(1 << 45, -3, 1 << 44)] {
        assert!(v.try_normalize().unwrap().is_normalized());
    }
    let n = Vec3::new(3 * ONE, 4 * ONE, 0).try_normalize().unwrap();
    assert!((as_float(n.x) - 0.6).abs() < 1e-4);
    assert!((as_float(n.y) - 0.8).abs() < 1e-4);
    assert!(n.is_normalized());
    assert!(!Vec3::new(ONE, ONE, 0).is_normalized());
}

#[test]
fn random_vectors_stay_in_range() {
    let mut seen_negative = false;
    let mut seen_different = false;
    let first = Vec3::random_in_unit_sphere();
    for _ in 0..200 {
        let v = Vec3::random_in_unit_sphere();
        assert!(v.length_squared() < (ONE as i128) * (ONE as i128));
        seen_negative |= v.x < 0 || v.y < 0 || v.z < 0;
        seen_different |= v != first;
        let u = Vec3::random_unit();
        assert!(u.x.abs() <= ONE && u.y.abs() <= ONE && u.z.abs() <= ONE);
    }
    assert!(seen_negative);
    assert!(seen_different);
}

#[test]
fn colors_pack_red_first() {
    assert_eq!(color_rgba(ONE, 0, 0, ONE), 0xff00_00ff);
    assert_eq!(color_rgba(0, ONE, 0, ONE), 0xff00_ff00);
    assert_eq!(color_rgba(0, 0, ONE, ONE), 0xffff_0000);
    assert_eq!(color_rgba(0, 0, 0, 0), 0);
    assert_eq!(color_rgba(2 * ONE, -ONE, ONE / 2, ONE), 0xff7f_00ff);
    assert_eq!(color_rgb(Vec3::new(39322, 45875, 58982)), 0xffe5_b299);
    assert_eq!(color_rgb(Vec3::new(0, 0, 0)).to_le_bytes(), [0, 0, 0, 255]);
}

#[test]
fn facing_ray_hits_at_distance_less_radius() {
    let ball = sphere(point(0., 0., 0.), 1.5, 3);
    let ray = Ray { origin: point(0., 0., 4.), direction: point(0., 0., -1.) };
    let clip = fx(0.01)..fx(100.);
    assert!(clip_is_valid(&clip));
    assert!(ray.is_valid());
    match ball.check_hit(&ray, &clip) {
        HitPayload::Hit { hit_distance, world_normal, world_position, material_index, side } => {
            assert!((as_float(hit_distance) - 2.5).abs() <= 1e-4);
            assert_eq!(hit_distance, fx(2.5));
            assert_eq!(world_position, point(0., 0., 1.5));
            assert_eq!(world_normal, point(0., 0., 1.));
            assert_eq!(material_index, 3);
            assert!(side == FaceSide::Front);
        }
        _ => panic!("the ray must hit"),
    }
}

#[test]
fn facing_ray_hits_from_any_side() {
    let ball = sphere(point(1., -2., 0.5), 0.25, 1);
    let clip = fx(0.01)..fx(100.);
    let normal = Vec3::new(2 * ONE, -ONE, 2 * ONE).try_normalize().unwrap();
    let origin = point(1., -2., 0.5).plus(normal.scaled(fx(3.)));
    let ray = Ray { origin, direction: normal.negated() };
    match ball.check_hit(&ray, &clip) {
        HitPayload::Hit { hit_distance, .. } => {
            assert!((as_float(hit_distance) - 2.75).abs() <= 1e-4);
        }
        _ => panic!("the ray must hit"),
    }
}

#[test]
fn passing_ray_misses() {
    let ball = sphere(point(0., 0., 0.), 1., 0);
    let clip = fx(0.01)..fx(100.);
    let ray = Ray { origin: point(0., 1.01, 4.), direction: point(0., 0., -1.) };
    assert!(ball.check_hit(&ray, &clip) == HitPayload::Miss);
    let away = Ray { origin: point(0., 0., 4.), direction: point(0., 0., 1.) };
    assert!(ball.check_hit(&away, &clip) == HitPayload::Miss);
    let still = Ray { origin: point(0., 0., 4.), direction: point(0., 0., 0.) };
    assert!(ball.check_hit(&still, &clip) == HitPayload::Miss);
}

#[test]
fn clip_range_picks_the_root() {
    let ball = sphere(point(0., 0., 0.), 1., 0);
    let ray = Ray { origin: point(0., 0., 4.), direction: point(0., 0., -1.) };
    // the near root is 3, the far root 5
    let behind_near = fx(3.5)..fx(100.);
    match ball.check_hit(&ray, &behind_near) {
        HitPayload::Hit { hit_distance, side, world_normal, .. } => {
            assert_eq!(hit_distance, fx(5.));
            assert!(side == FaceSide::Back);
            assert_eq!(world_normal, point(0., 0., 1.));
        }
        _ => panic!("the far root is in range"),
    }
    assert!(ball.check_hit(&ray, &(fx(5.5)..fx(100.))) == HitPayload::Miss);
    assert!(ball.check_hit(&ray, &(fx(0.01)..fx(3.))) == HitPayload::Miss);
    assert!(ball.check_hit(&ray, &(fx(3.)..fx(3.) + 1)) != HitPayload::Miss);
}

#[test]
fn ray_from_inside_is_inside() {
    let ball = sphere(point(0., 0., 0.), 1., 0);
    let clip = fx(0.01)..fx(100.);
    let ray = Ray { origin: point(0., 0.5, 0.), direction: point(0., 0., -1.) };
    assert!(ball.check_hit(&ray, &clip) == HitPayload::Inside);
    let on_surface = Ray { origin: point(0., 1., 0.), direction: point(0., -1., 0.) };
    assert!(ball.check_hit(&on_surface, &clip) != HitPayload::Inside);
}

#[test]
fn hits_are_ordered_by_distance() {
    let miss = HitPayload::Miss;
    let near = HitPayload::Hit {
        hit_distance: fx(1.),
        world_normal: point(0., 0., 1.),
        world_position: point(0., 0., 1.),
        material_index: 1,
        side: FaceSide::Front,
    };
    let far = HitPayload::Hit {
        hit_distance: fx(2.),
        world_normal: point(0., 0., 1.),
        world_position: point(0., 0., 0.),
        material_index: 2,
        side: FaceSide::Front,
    };
    assert!(near.closer(far) == near);
    assert!(far.closer(near) == near);
    assert!(near.closer(miss) == near);
    assert!(miss.closer(near) == near);
    assert!(miss.closer(miss) == miss);
    assert!(near.closer(HitPayload::Inside) == HitPayload::Inside);
    assert!(HitPayload::Inside.closer(near) == HitPayload::Inside);
    assert!(near.is_valid());
}

#[test]
fn sphere_into_hittable() {
    let ball = Sphere { center: point(1., 2., 3.), radius: fx(0.5), material_index: 7 };
    assert!(Hittable::from(ball) == Hittable::Sphere(ball));
    assert!(ball.is_valid());
    assert!(!Sphere { radius: 0, ..ball }.is_valid());
    assert!(Sphere::default() == Sphere { center: point(0., 0., 0.), radius: ONE, material_index: 0 });
    assert!(Ray::default() == Ray { origin: point(0., 0., 0.), direction: point(0., 0., 1.) });
    assert_eq!(Ray::default().at(fx(2.5)), point(0., 0., 2.5));
}

#[test]
fn pictures_turn_upside_down_into_bytes() {
    // two columns, three rows, from the bottom
    let image = [0x0403_0201, 0x0807_0605, 0x0c0b_0a09, 0x100f_0e0d, 0x1413_1211, 0x1817_1615];
    let bytes = top_down_bytes(&image, 2, 3);
    assert_eq!(
        bytes,
        vec![
            0x11, 0x12, 0x13, 0x14, 0x15, 0x16, 0x17, 0x18, // the top row
            0x09, 0x0a, 0x0b, 0x0c, 0x0d, 0x0e, 0x0f, 0x10, //
            0x01, 0x02, 0x03, 0x04, 0x05, 0x06, 0x07, 0x08, // the bottom row
        ]
    );
    assert!(top_down_bytes(&[], 0, 7).is_empty());
}

#[test]
fn reflecting_at_an_axis() {
    let v = Vec3::new(3 * ONE, -2 * ONE, ONE / 2);
    let mirrored = v.reflect(Vec3::new(0, ONE, 0));
    assert_eq!(mirrored, Vec3::new(-3 * ONE, -2 * ONE, -ONE / 2));
}

#[test]
fn bounds_of_vectors() {
    let v = Vec3::new(3, -7, 5);
    assert!(v.is_within(7));
    assert!(!v.is_within(6));
    assert!(Vec3::splat(0).is_within(0));
    assert!(Ray { origin: v, direction: v }.is_valid());
    assert!(!Ray { origin: v, direction: Vec3::new(0, 0, 1 << 21) }.is_valid());
    assert!(!Ray { origin: Vec3::new(1 << 38, 0, 0), direction: v }.is_valid());
    assert!(!clip_is_valid(&(0..(1 << 32))));
}

#[test]
fn random_words_become_coordinates() {
    assert_eq!(coordinate_of(0), -ONE);
    assert_eq!(coordinate_of(0x7fff), -ONE);
    assert_eq!(coordinate_of(0x8000), -ONE + 1);
    assert_eq!(coordinate_of(0x8000_0000), 0);
    assert_eq!(coordinate_of(0xc000_0000), ONE / 2);
    assert_eq!(coordinate_of(u32::MAX), ONE - 1);
}

#[test]
fn first_candidate_in_the_ball_is_taken() {
    let outside = Vec3::new(ONE - 1, ONE - 1, 0);
    let on_the_ball = Vec3::new(ONE, 0, 0);
    let inside = Vec3::new(ONE / 2, -ONE / 2, ONE / 2);
    let other = Vec3::new(0, 0, 1);
    assert_eq!(first_in_ball(&vec![outside, on_the_ball, inside, other]), Some(inside));
    assert_eq!(first_in_ball(&vec![other, inside]), Some(other));
    assert_eq!(first_in_ball(&vec![outside, on_the_ball]), None);
    assert_eq!(first_in_ball(&vec![]), None);
}

#[test]
fn first_candidate_with_a_direction_is_taken() {
    let zero = Vec3::new(0, 0, 0);
    let first = Vec3::new(0, -3, 0);
    let second = Vec3::new(5, 0, 0);
    assert_eq!(first_direction(&vec![zero, zero, first, second]), Some(Vec3::new(0, -ONE, 0)));
    assert_eq!(first_direction(&vec![second, first]), Some(Vec3::new(ONE, 0, 0)));
    assert_eq!(first_direction(&vec![zero, zero]), None);
    assert_eq!(first_direction(&vec![]), None);
}

#[test]
fn tiny_sphere_is_hit_with_a_normal() {
    // rounding puts the hit point of a long direction onto the centre
    let clip = fx(0.01)..fx(100.);
    for radius in 1..16 {
        let ball = Hittable::Sphere(Sphere { center: point(0., 0., 0.), radius, material_index: 0 });
        let ray = Ray { origin: point(0., 0., 16.), direction: point(0., 0., -16.) };
        match ball.check_hit(&ray, &clip) {
            HitPayload::Hit { world_normal, side, .. } => {
                assert_eq!(world_normal, point(0., 0., 1.));
                assert!(side == FaceSide::Front);
            }
            _ => panic!("the ray must hit"),
        }
    }
}

#[test]
fn facing_rays_hit_within_the_slack_of_the_radius() {
    let clip = fx(0.01)..(1i64 << 31);
    for (radius, distance) in
        [(fx(0.125), 3i64), (fx(0.5), 1), (fx(1.), 4), (fx(10.), 20), (fx(5000.), 9000)]
    {
        for v in [Vec3::new(1, 1, 1), Vec3::new(3, -4, 12), Vec3::new(-5, 9, 2), Vec3::new(0, -1, 0)] {
            let normal = v.try_normalize().unwrap();
            let origin = Vec3::new(normal.x * distance, normal.y * distance, normal.z * distance);
            let ball = sphere(point(0., 0., 0.), 1., 0);
            let ball = match ball {
                Hittable::Sphere(ball) => Hittable::Sphere(Sphere { radius, ..ball }),
            };
            let ray = Ray { origin, direction: normal.negated() };
            let slack = 4 * radius / ONE + 2;
            match ball.check_hit(&ray, &clip) {
                HitPayload::Hit { hit_distance, .. } => {
                    let off = hit_distance - (distance * ONE - radius);
                    assert!(off.abs() <= slack);
                    if radius <= fx(1.) {
                        assert!((as_float(off)).abs() <= 1e-4);
                    }
                }
                _ => panic!("the ray must hit"),
            }
        }
    }
}
