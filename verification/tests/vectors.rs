use raytracer::ray::Ray;
use raytracer::vec::Vec3;
use raytracer::SCALE;

const S: i64 = SCALE;

#[test]
fn test_vector_dot_same() {
    let v1 = Vec3 { x: 0, y: 0, z: S };
    let v2 = Vec3 { x: 0, y: 0, z: S };

    assert!(v1.dot(&v2) == S);
}

#[test]
fn test_vector_dot_opposite() {
    let v1 = Vec3 { x: 0, y: 0, z: S };
    let v2 = Vec3 { x: 0, y: 0, z: -S };

    assert!(v1.dot(&v2) == -S);
}

#[test]
fn test_vector_dot_perpendicular() {
    let v1 = Vec3 { x: 0, y: 0, z: S };
    let v2 = Vec3 { x: 0, y: S, z: 0 };

    assert!(v1.dot(&v2) == 0);
}

#[test]
fn test_dot_commutes_on_samples() {
    let v1 = Vec3::new(3 * S, -2 * S, 7 * S + 123);
    let v2 = Vec3::new(-S, 5 * S + 7, 11);
    assert_eq!(v1.dot(&v2), v2.dot(&v1));
}

#[test]
fn test_dot_self_is_squared_magnitude() {
    // a 3-4-0 vector has length exactly 5
    let v = Vec3::new(3 * S, 4 * S, 0);
    assert_eq!(v.magnitude(), 5 * S);
    assert_eq!(v.dot(&v), 25 * S);
}

#[test]
fn test_vector_add_subtract_scale() {
    let a = Vec3::new(S, 2 * S, -3 * S);
    let b = Vec3::new(4 * S, -S, S);
    assert_eq!(a.add(b), Vec3::new(5 * S, S, -2 * S));
    assert_eq!(a.subtract(b), Vec3::new(-3 * S, 3 * S, -4 * S));
    assert_eq!(a.scale(2 * S), Vec3::new(2 * S, 4 * S, -6 * S));
}

#[test]
fn test_normalise_unit_vector_is_identity() {
    // an exactly-unit vector normalises to itself
    let v = Vec3::new(0, 0, S);
    assert_eq!(v.normalise(), v);
    assert_eq!(v.normalise().magnitude(), S);
}

#[test]
fn test_normalise_magnitude_near_unit() {
    // a 3-4-0 direction: rounding keeps the magnitude within a few raw units
    let v = Vec3::new(3 * S, 4 * S, 0);
    let m = v.normalise().magnitude();
    assert!(S - 4 <= m && m <= S);
}

#[test]
fn test_ray_new_normalises_and_keeps_direction() {
    let d = Vec3::new(0, 2 * S, 7 * S);
    let r = Ray::new(Vec3::new(0, 0, 0), d);
    let m = r.direction.magnitude();
    assert!(S - 4 <= m && m <= S);
    assert!(r.direction.dot(&d) > 0);
}

#[test]
fn test_ray_at_walks_the_direction() {
    let r = Ray::new(Vec3::new(S, 0, 0), Vec3::new(0, 0, -S));
    assert_eq!(r.at(3 * S), Vec3::new(S, 0, -3 * S));
}
