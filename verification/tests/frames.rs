use raytracer::ppm::render_ppm_image_ascii;
use raytracer::render::{
    move_camera_on_key_press, pixel_color, pixel_ray, render_frame, Camera, KeyPresses,
    Primitive, Viewport, Window,
};
use raytracer::color::RGBAColor;
use raytracer::plane::Plane;
use raytracer::ray::Ray;
use raytracer::sphere::Sphere;
use raytracer::vec::Vec3;
use raytracer::SCALE;

const S: i64 = SCALE;

#[test]
fn test_window_height_follows_aspect_ratio() {
    let w = Window::new(400);
    assert_eq!(w.width, 400);
    assert_eq!(w.height, 9 * 400 / 16);
}

#[test]
fn test_viewport_geometry() {
    let window = Window::new(400);
    let camera = Camera::new(Vec3::new(0, 0, 0));
    let vp = Viewport::new(&window, &camera);
    let vw: i64 = 2 * S * 400 / 225;
    assert_eq!(vp.pixel_delta_u, Vec3::new(vw / 400, 0, 0));
    assert_eq!(vp.pixel_delta_v, Vec3::new(0, -((2 * S + 225 - 1) / 225), 0));
    assert_eq!(vp.starting_pixel.z, -S);
}

#[test]
fn test_move_camera_on_key_press() {
    let mut camera = Camera::new(Vec3::new(0, 0, 0));
    let keys = KeyPresses {
        forward: true,
        backward: false,
        left: true,
        right: false,
        up: true,
        down: false,
    };
    move_camera_on_key_press(&mut camera, &keys);
    assert_eq!(camera.location, Vec3::new(S / 2, -S / 2, S / 2));
    let opposite = KeyPresses {
        forward: false,
        backward: true,
        left: false,
        right: true,
        up: false,
        down: true,
    };
    move_camera_on_key_press(&mut camera, &opposite);
    assert_eq!(camera.location, Vec3::new(0, 0, 0));
}

#[test]
fn test_color() {
    // the background gradient over a 400-wide 16:9 frame
    let image_width: i64 = 400;
    let window = Window::new(image_width);
    let camera = Camera::new(Vec3::new(0, 0, 0));
    let viewport = Viewport::new(&window, &camera);
    let objects: Vec<Primitive> = Vec::new();
    let pixels = render_frame(&objects, &viewport, &camera, window.width, window.height);
    assert_eq!(pixels.len() as i64, window.width * window.height);
    // every sky pixel keeps full blue; the top rows sit nearer the horizon
    // blend than the bottom rows
    let top = pixels[(window.width / 2) as usize];
    let bottom = pixels[((window.height - 1) * window.width + window.width / 2) as usize];
    assert!(top.2 >= 250 && bottom.2 >= 250);
    assert!(top.0 < bottom.0);
    let text = render_ppm_image_ascii(window.height, window.width, 255, &pixels);
    assert!(text.starts_with(b"P3\n400 225\n255\n"));
}

#[test]
fn test_color_with_sphere() {
    let image_width: i64 = 1024;
    let window = Window::new(image_width);
    let camera = Camera::new(Vec3::new(0, 0, 0));
    let viewport = Viewport::new(&window, &camera);
    let objects = vec![
        Primitive::Sphere(Sphere { origin: Vec3::new(0, 0, -5 * S), radius: S }),
    ];
    let pixels = render_frame(&objects, &viewport, &camera, window.width, window.height);
    assert_eq!(pixels.len() as i64, window.width * window.height);
    // the center pixel sees the sphere head on: its far-hit normal points
    // away from the camera, so the blue channel collapses
    let center = pixels[((window.height / 2) * window.width + window.width / 2) as usize];
    assert!(center.2 <= 20);
    assert!(120 <= center.0 && center.0 <= 135);
    assert!(120 <= center.1 && center.1 <= 135);
    // a corner pixel sees the sky
    let corner = pixels[0];
    assert!(corner.2 >= 250);
    let text = render_ppm_image_ascii(window.height, window.width, 255, &pixels);
    assert!(text.starts_with(b"P3\n1024 576\n255\n"));
}

#[test]
fn test_pixel_color_plane_shades_by_orientation() {
    // a plane overhead, seen along its orientation: the pixel shows the
    // orientation vector itself, mapped into byte range
    let plane = Primitive::Plane(Plane {
        origin: Vec3::new(0, 5 * S, 0),
        orient: Vec3::new(0, S, 0),
        color: RGBAColor::new(0, 0, 0).unwrap(),
    });
    let ray = Ray::new(Vec3::new(0, 0, 0), Vec3::new(0, S, -S));
    let c = pixel_color(&vec![plane], &ray);
    assert_eq!(c.as_rgb_tuple(), (127, 255, 127));
}

#[test]
fn test_pixel_color_empty_scene_is_sky() {
    let camera = Camera::new(Vec3::new(0, 0, 0));
    let window = Window::new(400);
    let vp = Viewport::new(&window, &camera);
    let ray = pixel_ray(&vp, &camera, 0, 0);
    let c = pixel_color(&Vec::new(), &ray);
    let sky = raytracer::color::RGBAColor::white_blue_blend_over_y(&ray);
    assert_eq!(c.as_rgb_tuple(), sky.as_rgb_tuple());
}

#[test]
fn test_pixel_color_first_probe_wins() {
    // two spheres along the same ray: the first of the list shades the
    // pixel, whether or not it is the nearest
    let near = Primitive::Sphere(Sphere { origin: Vec3::new(0, 0, -3 * S), radius: S });
    let far = Primitive::Sphere(Sphere { origin: Vec3::new(0, 0, -9 * S), radius: S });
    let camera = Camera::new(Vec3::new(0, 0, 0));
    let window = Window::new(400);
    let vp = Viewport::new(&window, &camera);
    let ray = pixel_ray(&vp, &camera, window.width / 2, window.height / 2);
    let far_first = pixel_color(&vec![far, near], &ray);
    let near_first = pixel_color(&vec![near, far], &ray);
    let far_only = pixel_color(&vec![far], &ray);
    let near_only = pixel_color(&vec![near], &ray);
    assert_eq!(far_first.as_rgb_tuple(), far_only.as_rgb_tuple());
    assert_eq!(near_first.as_rgb_tuple(), near_only.as_rgb_tuple());
}
