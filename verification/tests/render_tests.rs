use ray_tracer_rust::random_in_unit_sphere;
use ray_tracer_rust::ray_color;
use ray_tracer_rust::Hittable;
use ray_tracer_rust::HittableList;
use ray_tracer_rust::Ray;
use ray_tracer_rust::Sphere;
use ray_tracer_rust::Vec3;
use ray_tracer_rust::SCALE;

/// The fixed-point image of a real value: `v * SCALE`, truncated.
fn fx(v: f64) -> i64 {
    (v * SCALE as f64) as i64
}

fn one_sphere_scene() -> HittableList {
    let mut world = HittableList::new();
    world.add_object(Hittable::Sphere(Sphere::new(Vec3::new(0, 0, fx(-1.0)), fx(0.5))));
    world
}

#[test]
fn ray_color_depth_zero_test() {
    // With no depth left the result is black, scene and ray regardless.
    let world = one_sphere_scene();
    let hitting = Ray::new(&Vec3::new(0, 0, 0), &Vec3::new(0, 0, fx(-1.0)));
    let missing = Ray::new(&Vec3::new(0, 0, 0), &Vec3::new(0, fx(1.0), 0));
    assert_eq!(ray_color(&hitting, &world, 0), Vec3::new(0, 0, 0));
    assert_eq!(ray_color(&missing, &world, 0), Vec3::new(0, 0, 0));
}

#[test]
fn ray_color_background_up_test() {
    // A ray pointing straight up escapes and returns the sky color.
    let world = HittableList::new();
    let ray = Ray::new(&Vec3::new(0, 0, 0), &Vec3::new(0, fx(1.0), 0));
    let color = ray_color(&ray, &world, 50);
    assert_eq!(color, Vec3::new(fx(0.5), fx(0.7), fx(1.0)));
}

#[test]
fn ray_color_background_forward_test() {
    // A level ray (unit y == 0) blends white and sky half and half.
    let world = HittableList::new();
    let ray = Ray::new(&Vec3::new(0, 0, 0), &Vec3::new(0, 0, fx(-1.0)));
    let color = ray_color(&ray, &world, 50);
    // Componentwise (1 - 0.5) * white + 0.5 * sky, with the blend of
    // the odd sky component rounding down one step.
    assert_eq!(color.x(), fx(0.75));
    assert_eq!(color.y(), fx(0.5) + (fx(0.7) / 2));
    assert_eq!(color.z(), fx(1.0));
}

#[test]
fn ray_color_hit_is_attenuated_test() {
    // A ray that strikes the sphere keeps at most half of one unit in
    // every channel, and channels never go negative.
    let world = one_sphere_scene();
    let ray = Ray::new(&Vec3::new(0, 0, 0), &Vec3::new(0, 0, fx(-1.0)));
    for _ in 0..32 {
        let color = ray_color(&ray, &world, 50);
        assert!(0 <= color.x() && color.x() <= SCALE / 2);
        assert!(0 <= color.y() && color.y() <= SCALE / 2);
        assert!(0 <= color.z() && color.z() <= SCALE / 2);
    }
}

#[test]
fn ray_color_depth_one_hit_test() {
    // With exactly one bounce left, a hit returns half of the next
    // sample, and the next sample is black: exact black overall.
    let world = one_sphere_scene();
    let ray = Ray::new(&Vec3::new(0, 0, 0), &Vec3::new(0, 0, fx(-1.0)));
    assert_eq!(ray_color(&ray, &world, 1), Vec3::new(0, 0, 0));
}

#[test]
fn random_in_unit_sphere_test() {
    // Every sample lies in the cube and strictly inside the unit ball.
    for _ in 0..256 {
        let p = random_in_unit_sphere();
        assert!(-SCALE <= p.x() && p.x() <= SCALE);
        assert!(-SCALE <= p.y() && p.y() <= SCALE);
        assert!(-SCALE <= p.z() && p.z() <= SCALE);
        assert!(p.length_squared() < SCALE * SCALE);
    }
}
