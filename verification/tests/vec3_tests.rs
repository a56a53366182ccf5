use ray_tracer_rust::Vec3;
use ray_tracer_rust::SCALE;

/// The fixed-point image of a real value: `v * SCALE`, truncated.
fn fx(v: f64) -> i64 {
    (v * SCALE as f64) as i64
}

#[test]
fn length_test() {
    let a = Vec3::new(fx(1.0), fx(2.0), fx(3.0));
    assert_eq!(a.length(), fx((14.0_f64).sqrt()));
}

#[test]
fn length_squared_test() {
    let a = Vec3::new(fx(1.0), fx(2.0), fx(3.0));
    assert_eq!(a.length_squared(), 14 * SCALE * SCALE);
}

#[test]
fn dot_test() {
    let a = Vec3::new(fx(1.0), fx(2.0), fx(3.0));
    let b = Vec3::new(fx(5.0), fx(6.0), fx(7.0));
    let res = 38 * SCALE * SCALE;
    assert_eq!(a.dot(&b), res);
}

#[test]
fn cross_test() {
    let a = Vec3::new(fx(1.0), fx(2.0), fx(3.0));
    let b = Vec3::new(fx(5.0), fx(6.0), fx(7.0));
    let res = Vec3::new(-4 * SCALE * SCALE, 8 * SCALE * SCALE, -4 * SCALE * SCALE);
    assert_eq!(a.cross(&b), res);
}

#[test]
fn unit_vector_test() {
    let a = Vec3::new(fx(1.0), fx(2.0), fx(3.0));
    let res = Vec3::new(
        fx(1.0 / (14.0_f64).sqrt()),
        fx(2.0 / (14.0_f64).sqrt()),
        fx(3.0 / (14.0_f64).sqrt()),
    );
    assert_eq!(a.unit_vector(), res);
}

#[test]
fn neg_test() {
    let a = Vec3::new(fx(1.0), fx(2.0), fx(3.0));
    let res = Vec3::new(fx(-1.0), fx(-2.0), fx(-3.0));
    assert_eq!(a.neg(), res);

    let a = Vec3::new(fx(1.0), fx(2.0), fx(3.0));
    let res = Vec3::new(fx(-1.0), fx(-2.0), fx(-3.0));
    assert_eq!(a.neg(), res);
}

#[test]
fn add_test() {
    let a = Vec3::new(fx(1.0), fx(2.0), fx(3.0));
    let b = Vec3::new(fx(5.0), fx(6.0), fx(7.0));
    let res = Vec3::new(fx(6.0), fx(8.0), fx(10.0));
    assert_eq!(a.add(&b), res);

    let a = Vec3::new(fx(1.0), fx(2.0), fx(3.0));
    let b = Vec3::new(fx(5.0), fx(6.0), fx(7.0));
    let res = Vec3::new(fx(6.0), fx(8.0), fx(10.0));
    assert_eq!(b.add(&a), res);
}

#[test]
fn add_assign_test() {
    let mut a = Vec3::new(fx(1.0), fx(2.0), fx(3.0));
    let b = Vec3::new(fx(5.0), fx(6.0), fx(7.0));
    let res = Vec3::new(fx(6.0), fx(8.0), fx(10.0));
    a.add_assign(&b);
    assert_eq!(a, res);

    let mut a = Vec3::new(fx(1.0), fx(2.0), fx(3.0));
    a.add_assign(&b);
    assert_eq!(a, res);
}

#[test]
fn sub_test() {
    let a = Vec3::new(fx(1.0), fx(2.0), fx(3.0));
    let b = Vec3::new(fx(5.0), fx(6.0), fx(7.0));
    let res = Vec3::new(fx(-4.0), fx(-4.0), fx(-4.0));
    assert_eq!(a.sub(&b), res);

    let a = Vec3::new(fx(1.0), fx(2.0), fx(3.0));
    let b = Vec3::new(fx(5.0), fx(6.0), fx(7.0));
    let res = Vec3::new(fx(-4.0), fx(-4.0), fx(-4.0));
    assert_eq!(a.sub(&b), res);
}

#[test]
fn sub_assign_test() {
    let mut a = Vec3::new(fx(1.0), fx(2.0), fx(3.0));
    let b = Vec3::new(fx(5.0), fx(6.0), fx(7.0));
    let res = Vec3::new(fx(-4.0), fx(-4.0), fx(-4.0));
    a.sub_assign(&b);
    assert_eq!(a, res);

    let mut a = Vec3::new(fx(1.0), fx(2.0), fx(3.0));
    a.sub_assign(&b);
    assert_eq!(a, res);
}

#[test]
fn mul_test() {
    let a = Vec3::new(fx(1.0), fx(2.0), fx(3.0));
    let b = fx(3.5);
    let res = Vec3::new(fx(3.5), fx(7.0), fx(10.5));
    assert_eq!(a.mul(b), res);

    let a = Vec3::new(fx(1.0), fx(2.0), fx(3.0));
    let b = fx(3.5);
    let res = Vec3::new(fx(3.5), fx(7.0), fx(10.5));
    assert_eq!(a.mul(b), res);
}

#[test]
fn mul_assign_test() {
    let mut a = Vec3::new(fx(1.0), fx(2.0), fx(3.0));
    let b = fx(3.5);
    let res = Vec3::new(fx(3.5), fx(7.0), fx(10.5));
    a.mul_assign(b);
    assert_eq!(a, res);

    let mut a = Vec3::new(fx(1.0), fx(2.0), fx(3.0));
    a.mul_assign(b);
    assert_eq!(a, res);
}

#[test]
fn div_test() {
    let a = Vec3::new(fx(1.0), fx(2.0), fx(3.0));
    let b = fx(3.5);
    let res = Vec3::new(fx(1.0 / 3.5), fx(2.0 / 3.5), fx(3.0 / 3.5));
    assert_eq!(a.div(b), res);

    let a = Vec3::new(fx(1.0), fx(2.0), fx(3.0));
    let b = fx(3.5);
    let res = Vec3::new(fx(1.0 / 3.5), fx(2.0 / 3.5), fx(3.0 / 3.5));
    assert_eq!(a.div(b), res);
}

#[test]
fn div_assign_test() {
    let mut a = Vec3::new(fx(1.0), fx(2.0), fx(3.0));
    let b = fx(3.5);
    let res = Vec3::new(fx(1.0 / 3.5), fx(2.0 / 3.5), fx(3.0 / 3.5));
    a.div_assign(b);
    assert_eq!(a, res);

    let mut a = Vec3::new(fx(1.0), fx(2.0), fx(3.0));
    a.div_assign(b);
    assert_eq!(a, res);
}

#[test]
fn add_sub_round_trip_test() {
    let a = Vec3::new(fx(1.25), fx(-2.5), fx(3.75));
    let b = Vec3::new(fx(0.5), fx(6.0), fx(-7.125));
    assert_eq!(a.add(&b).sub(&b), a);
}

#[test]
fn mul_div_round_trip_test() {
    let a = Vec3::new(fx(1.0), fx(2.0), fx(3.0));
    let s = fx(3.5);
    let back = a.mul(s).div(s);
    assert!((back.x() - a.x()).abs() <= 1);
    assert!((back.y() - a.y()).abs() <= 1);
    assert!((back.z() - a.z()).abs() <= 1);
}

#[test]
fn getters_test() {
    let a = Vec3::new(fx(1.0), fx(2.0), fx(3.0));
    assert_eq!(a.x(), SCALE);
    assert_eq!(a.y(), 2 * SCALE);
    assert_eq!(a.z(), 3 * SCALE);
}

#[test]
fn dot_commutes_test() {
    let a = Vec3::new(fx(1.0), fx(2.0), fx(3.0));
    let b = Vec3::new(fx(5.0), fx(6.0), fx(7.0));
    assert_eq!(a.dot(&b), b.dot(&a));
}

#[test]
fn cross_anticommutes_test() {
    let a = Vec3::new(fx(1.0), fx(2.0), fx(3.0));
    let b = Vec3::new(fx(5.0), fx(6.0), fx(7.0));
    assert_eq!(a.cross(&b), b.cross(&a).neg());
}

#[test]
fn length_squared_is_dot_self_test() {
    let a = Vec3::new(fx(1.0), fx(2.0), fx(3.0));
    assert_eq!(a.length_squared(), a.dot(&a));
}

#[test]
fn unit_vector_length_test() {
    // Normalizing any nonzero vector yields a vector whose rounded
    // length is within four fixed-point steps of one unit.
    let a = Vec3::new(fx(1.0), fx(2.0), fx(3.0));
    let len = a.unit_vector().length();
    assert!((len - SCALE).abs() <= 4);

    let small = Vec3::new(fx(0.001), fx(-0.002), fx(0.0005));
    let len = small.unit_vector().length();
    assert!((len - SCALE).abs() <= 4);
}

#[test]
fn unit_vector_small_test() {
    // A vector far below one unit still normalizes accurately: one raw
    // step on two axes becomes the diagonal unit vector.
    let a = Vec3::new(1, 1, 0);
    let u = a.unit_vector();
    assert_eq!(u, Vec3::new(46341, 46341, 0));
    assert_eq!(u.length(), SCALE);
}
