use ray_tracer_rust::HitRecord;
use ray_tracer_rust::Hittable;
use ray_tracer_rust::HittableList;
use ray_tracer_rust::Ray;
use ray_tracer_rust::Sphere;
use ray_tracer_rust::Vec3;
use ray_tracer_rust::SCALE;

/// The fixed-point image of a real value: `v * SCALE`, truncated.
fn fx(v: f64) -> i64 {
    (v * SCALE as f64) as i64
}

const T_MIN: i64 = 65;
const T_MAX: i64 = 65536000;

#[test]
fn sphere_getters_test() {
    let s = Sphere::new(Vec3::new(fx(1.0), fx(2.0), fx(3.0)), fx(0.5));
    assert_eq!(s.center(), Vec3::new(fx(1.0), fx(2.0), fx(3.0)));
    assert_eq!(s.radius(), fx(0.5));
}

#[test]
fn hit_record_new_test() {
    let rec = HitRecord::new();
    assert_eq!(rec.p, Vec3::new(0, 0, 0));
    assert_eq!(rec.t, 0);
    assert_eq!(rec.get_normal(), Vec3::new(0, 0, 0));
    assert!(!rec.get_front_face());
}

#[test]
fn set_normal_front_test() {
    // Ray heading -z, outward normal +z: the ray strikes the outside.
    let ray = Ray::new(&Vec3::new(0, 0, 0), &Vec3::new(0, 0, fx(-1.0)));
    let outward = Vec3::new(0, 0, fx(1.0));
    let mut rec = HitRecord::new();
    rec.set_normal(&ray, &outward);
    assert!(rec.get_front_face());
    assert_eq!(rec.get_normal(), outward);
}

#[test]
fn set_normal_back_test() {
    // Ray heading +z, outward normal +z: the ray strikes from inside,
    // and the stored normal is flipped to face the ray.
    let ray = Ray::new(&Vec3::new(0, 0, 0), &Vec3::new(0, 0, fx(1.0)));
    let outward = Vec3::new(0, 0, fx(1.0));
    let mut rec = HitRecord::new();
    rec.set_normal(&ray, &outward);
    assert!(!rec.get_front_face());
    assert_eq!(rec.get_normal(), Vec3::new(0, 0, fx(-1.0)));
}

#[test]
fn ray_at_test() {
    let ray = Ray::new(&Vec3::new(fx(1.0), 0, 0), &Vec3::new(0, fx(2.0), fx(-1.0)));
    let p = ray.at(fx(1.5));
    assert_eq!(p, Vec3::new(fx(1.0), fx(3.0), fx(-1.5)));
}

#[test]
fn ray_getters_test() {
    let origin = Vec3::new(fx(1.0), fx(2.0), fx(3.0));
    let direction = Vec3::new(0, 0, fx(-1.0));
    let ray = Ray::new(&origin, &direction);
    assert_eq!(ray.origin(), origin);
    assert_eq!(ray.direction(), direction);
}

#[test]
fn sphere_head_on_hit_test() {
    // A ray aimed at the center from distance 2 with radius 1 hits at
    // t = distance - radius = 1, with the outward normal, front face.
    let s = Sphere::new(Vec3::new(0, 0, fx(-2.0)), fx(1.0));
    let ray = Ray::new(&Vec3::new(0, 0, 0), &Vec3::new(0, 0, fx(-1.0)));
    let rec = s.hit(&ray, T_MIN, T_MAX).expect("head-on ray must hit");
    assert_eq!(rec.t, fx(1.0));
    assert_eq!(rec.p, Vec3::new(0, 0, fx(-1.0)));
    assert_eq!(rec.get_normal(), Vec3::new(0, 0, fx(1.0)));
    assert!(rec.get_front_face());
}

#[test]
fn sphere_miss_test() {
    // Perpendicular offset 2 with radius 0.5: no intersection.
    let s = Sphere::new(Vec3::new(0, 0, fx(-1.0)), fx(0.5));
    let ray = Ray::new(&Vec3::new(fx(2.0), 0, 0), &Vec3::new(0, 0, fx(-1.0)));
    assert!(s.hit(&ray, T_MIN, T_MAX).is_none());
}

#[test]
fn sphere_inside_hit_test() {
    // A ray starting at the center leaves through the surface: the hit
    // is the far root, the struck side is the back, and the stored
    // normal is flipped to point against the ray.
    let s = Sphere::new(Vec3::new(0, 0, 0), fx(1.0));
    let ray = Ray::new(&Vec3::new(0, 0, 0), &Vec3::new(0, 0, fx(-1.0)));
    let rec = s.hit(&ray, T_MIN, T_MAX).expect("interior ray must hit");
    assert_eq!(rec.t, fx(1.0));
    assert_eq!(rec.p, Vec3::new(0, 0, fx(-1.0)));
    assert!(!rec.get_front_face());
    assert_eq!(rec.get_normal(), Vec3::new(0, 0, fx(1.0)));
}

#[test]
fn sphere_bounds_inclusive_test() {
    // The window bounds are inclusive: a root exactly at t_max is kept,
    // one just beyond is not (and the far root lies farther still).
    let s = Sphere::new(Vec3::new(0, 0, fx(-1.0)), fx(0.5));
    let ray = Ray::new(&Vec3::new(0, 0, 0), &Vec3::new(0, 0, fx(-1.0)));
    let rec = s.hit(&ray, T_MIN, fx(0.5)).expect("boundary root is included");
    assert_eq!(rec.t, fx(0.5));
    assert!(s.hit(&ray, T_MIN, fx(0.5) - 1).is_none());
}

#[test]
fn list_nearest_of_two_test() {
    // Two spheres on the same axis: the nearer hit wins regardless of
    // insertion order.
    let near = Sphere::new(Vec3::new(0, 0, fx(-1.0)), fx(0.5));
    let far = Sphere::new(Vec3::new(0, 0, fx(-3.0)), fx(0.5));
    let ray = Ray::new(&Vec3::new(0, 0, 0), &Vec3::new(0, 0, fx(-1.0)));

    let mut world_a = HittableList::new();
    world_a.add_object(Hittable::Sphere(near));
    world_a.add_object(Hittable::Sphere(far));
    let rec_a = world_a.hit(&ray, T_MIN, T_MAX).expect("scene must hit");

    let mut world_b = HittableList::new();
    world_b.add_object(Hittable::Sphere(far));
    world_b.add_object(Hittable::Sphere(near));
    let rec_b = world_b.hit(&ray, T_MIN, T_MAX).expect("scene must hit");

    assert_eq!(rec_a.t, fx(0.5));
    assert_eq!(rec_a, rec_b);
}

#[test]
fn list_empty_and_clear_test() {
    let ray = Ray::new(&Vec3::new(0, 0, 0), &Vec3::new(0, 0, fx(-1.0)));
    let mut world = HittableList::new();
    assert!(world.hit(&ray, T_MIN, T_MAX).is_none());
    world.add_object(Hittable::Sphere(Sphere::new(Vec3::new(0, 0, fx(-1.0)), fx(0.5))));
    assert!(world.hit(&ray, T_MIN, T_MAX).is_some());
    world.clear();
    assert!(world.hit(&ray, T_MIN, T_MAX).is_none());
}

#[test]
fn end_to_end_scene_test() {
    // Scene with one sphere at (0,0,-1), radius 0.5; ray from the
    // origin toward (0,0,-1): hit at t == 0.5, point (0,0,-0.5),
    // normal (0,0,1), front face.
    let mut world = HittableList::new();
    world.add_object(Hittable::Sphere(Sphere::new(Vec3::new(0, 0, fx(-1.0)), fx(0.5))));
    let ray = Ray::new(&Vec3::new(0, 0, 0), &Vec3::new(0, 0, fx(-1.0)));
    let rec = world.hit(&ray, T_MIN, T_MAX).expect("scene must hit");
    assert_eq!(rec.t, fx(0.5));
    assert_eq!(rec.p, Vec3::new(0, 0, fx(-0.5)));
    assert_eq!(rec.get_normal(), Vec3::new(0, 0, fx(1.0)));
    assert!(rec.get_front_face());
}
