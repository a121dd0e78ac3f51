use raytracer::color::RGBAColor;
use raytracer::plane::Plane;
use raytracer::ray::Ray;
use raytracer::sphere::{Quadratic, Sphere};
use raytracer::traits::Intersectable;
use raytracer::vec::Vec3;
use raytracer::SCALE;

const S: i64 = SCALE;

fn white() -> RGBAColor {
    RGBAColor::new(255 * S, 255 * S, 255 * S).unwrap()
}

#[test]
fn test_intersect() {
    let ray = Ray::new(Vec3 { x: 0, y: 0, z: 0 }, Vec3 { x: S, y: 0, z: 0 });
    let sphere = Sphere { origin: Vec3::new(5 * S, 0, 0), radius: S };
    let intersect = sphere.intersect(&ray);
    assert!(intersect);
}

#[test]
fn test_sphere_head_on_two_hits() {
    // aimed at the center from distance 10 with radius 2: hits at 12 and 8,
    // far hit first
    let ray = Ray::new(Vec3::new(0, 0, 0), Vec3::new(0, 0, -S));
    let sphere = Sphere { origin: Vec3::new(0, 0, -10 * S), radius: 2 * S };
    let hits = sphere.intersect_hits(&ray).unwrap();
    assert_eq!(hits.len(), 2);
    assert_eq!(hits[0].t, 12 * S);
    assert_eq!(hits[1].t, 8 * S);
    assert!(hits[1].t <= hits[0].t);
}

#[test]
fn test_sphere_tangent_single_hit() {
    // a 3-4-5 configuration: the closest approach (3) equals the radius, the
    // discriminant is exactly zero, and the one hit sits at the tangent point
    let ray = Ray::new(Vec3::new(0, 0, 0), Vec3::new(0, 0, -S));
    let sphere = Sphere { origin: Vec3::new(0, 3 * S, -4 * S), radius: 3 * S };
    let hits = sphere.intersect_hits(&ray).unwrap();
    assert_eq!(hits.len(), 1);
    assert_eq!(hits[0].t, 4 * S);
    assert_eq!(hits[0].normal, Vec3::new(0, -S, 0));
}

#[test]
fn test_sphere_miss_no_hits() {
    // closest approach 3 exceeds the radius 1
    let ray = Ray::new(Vec3::new(0, 0, 0), Vec3::new(0, 0, -S));
    let sphere = Sphere { origin: Vec3::new(0, 3 * S, -5 * S), radius: S };
    assert!(sphere.intersect_hits(&ray).is_none());
    assert!(!sphere.intersect(&ray));
}

#[test]
fn test_sphere_scenario_hits_at_four_and_six() {
    // sphere at (0,0,-5) radius 1 seen from the origin: hits at 6 and 4,
    // far-then-near
    let ray = Ray::new(Vec3::new(0, 0, 0), Vec3::new(0, 0, -S));
    let sphere = Sphere { origin: Vec3::new(0, 0, -5 * S), radius: S };
    let hits = sphere.intersect_hits(&ray).unwrap();
    assert_eq!(hits.len(), 2);
    assert_eq!(hits[0].t, 6 * S);
    assert_eq!(hits[1].t, 4 * S);
    assert_eq!(hits[0].p, Vec3::new(0, 0, -6 * S));
    assert_eq!(hits[0].normal, Vec3::new(0, 0, -S));
    assert_eq!(hits[1].p, Vec3::new(0, 0, -4 * S));
    assert_eq!(hits[1].normal, Vec3::new(0, 0, S));
}

#[test]
fn test_quadratic_orders_roots_far_then_near() {
    // a = 1, b = -10, c = 24: roots 6 and 4, larger first
    let q = Quadratic::new(S, -10 * S, 24 * S);
    let sols = q.solutions.unwrap();
    assert_eq!(sols.len(), 2);
    assert_eq!(sols[0], 6 * S);
    assert_eq!(sols[1], 4 * S);
}

#[test]
fn test_quadratic_negative_discriminant_no_solutions() {
    let q = Quadratic::new(S, 0, S);
    assert!(q.discriminant < 0);
    assert!(q.solutions.is_none());
}

#[test]
fn test_plane_downward_ray_rejected_by_sign_convention() {
    // the plane probe accepts only rays with a positive component along the
    // orientation: a ray straight down onto an upward-oriented plane reports
    // no hit
    let plane = Plane {
        origin: Vec3::new(0, -S, 0),
        orient: Vec3::new(0, S, 0),
        color: white(),
    };
    let ray = Ray::new(Vec3::new(0, 5 * S, 0), Vec3::new(0, -S, 0));
    assert!(!plane.intersect(&ray));
    assert!(plane.intersect_hits(&ray).is_none());
}

#[test]
fn test_plane_hit_at_six_with_plane_normal() {
    // approaching the plane along its orientation: one hit at t = 6 whose
    // normal is the plane's own orientation vector
    let plane = Plane {
        origin: Vec3::new(0, -S, 0),
        orient: Vec3::new(0, S, 0),
        color: white(),
    };
    let ray = Ray::new(Vec3::new(0, -7 * S, 0), Vec3::new(0, S, 0));
    assert!(plane.intersect(&ray));
    let hits = plane.intersect_hits(&ray).unwrap();
    assert_eq!(hits.len(), 1);
    assert_eq!(hits[0].t, 6 * S);
    assert_eq!(hits[0].normal, Vec3::new(0, S, 0));
    assert_eq!(hits[0].p, Vec3::new(0, -S, 0));
}

#[test]
fn test_plane_parallel_ray_no_hit() {
    let plane = Plane {
        origin: Vec3::new(0, -S, 0),
        orient: Vec3::new(0, S, 0),
        color: white(),
    };
    let ray = Ray::new(Vec3::new(0, 0, 0), Vec3::new(S, 0, 0));
    assert!(!plane.intersect(&ray));
    assert!(plane.intersect_hits(&ray).is_none());
}
