use raytracer::color::{RGBAColor, CHANNEL_MAX, HORIZON_B, HORIZON_G, HORIZON_R};
use raytracer::ray::Ray;
use raytracer::vec::Vec3;
use raytracer::SCALE;

const S: i64 = SCALE;

#[test]
fn test_color_new_validates_range() {
    assert!(RGBAColor::new(0, 0, 0).is_some());
    assert!(RGBAColor::new(255 * S, 255 * S, 255 * S).is_some());
    assert!(RGBAColor::new(-1, 0, 0).is_none());
    assert!(RGBAColor::new(0, 255 * S + 1, 0).is_none());
    assert!(RGBAColor::new(0, 0, 256 * S).is_none());
    let c = RGBAColor::new(S, 2 * S, 3 * S).unwrap();
    assert_eq!(c.a, CHANNEL_MAX);
    assert_eq!((c.r, c.g, c.b), (S, 2 * S, 3 * S));
}

#[test]
fn test_color_add_revalidates() {
    let a = RGBAColor::new(100 * S, 200 * S, 50 * S).unwrap();
    let b = RGBAColor::new(100 * S, 55 * S, 50 * S).unwrap();
    let sum = a.add(b).unwrap();
    assert_eq!((sum.r, sum.g, sum.b), (200 * S, 255 * S, 100 * S));
    // an out-of-range sum yields no value rather than clamping
    let c = RGBAColor::new(200 * S, 0, 0).unwrap();
    assert!(c.add(c).is_none());
}

#[test]
fn test_color_scale_leaves_alpha() {
    let c = RGBAColor::new(100 * S, 50 * S, 20 * S).unwrap();
    let d = c.scale(2 * S);
    assert_eq!((d.r, d.g, d.b, d.a), (200 * S, 100 * S, 40 * S, CHANNEL_MAX));
}

#[test]
fn test_as_rgb_tuple_clamps_at_sink() {
    let over = RGBAColor::new(200 * S, 0, 0).unwrap().scale(2 * S);
    assert_eq!(over.as_rgb_tuple().0, 255);
    let under = RGBAColor { r: -5 * S, g: 3 * S, b: 255 * S, a: CHANNEL_MAX };
    assert_eq!(under.as_rgb_tuple(), (0, 3, 255));
}

#[test]
fn test_sky_straight_up_is_pure_horizon() {
    let ray = Ray::new(Vec3::new(0, 0, 0), Vec3::new(0, S, 0));
    let c = RGBAColor::white_blue_blend_over_y(&ray);
    assert_eq!((c.r, c.g, c.b), (HORIZON_R, HORIZON_G, HORIZON_B));
}

#[test]
fn test_sky_straight_down_is_pure_white() {
    let ray = Ray::new(Vec3::new(0, 0, 0), Vec3::new(0, -S, 0));
    let c = RGBAColor::white_blue_blend_over_y(&ray);
    assert_eq!((c.r, c.g, c.b), (255 * S, 255 * S, 255 * S));
}

#[test]
fn test_normal_shading_maps_components_to_bytes() {
    let c = RGBAColor::from_surface_normal(Vec3::new(0, 0, S));
    assert_eq!(c.as_rgb_tuple(), (127, 127, 255));
    let d = RGBAColor::from_surface_normal(Vec3::new(0, 0, -S));
    assert_eq!(d.as_rgb_tuple(), (127, 127, 0));
}
