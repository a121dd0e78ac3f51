//! The frame driver: window geometry, camera state, viewport setup, per-pixel
//! ray generation and the per-pixel shading decision.

use vstd::prelude::*;
use vstd::arithmetic::div_mod::lemma_fundamental_div_mod_converse;
use vstd::arithmetic::mul::lemma_mul_is_distributive_add;
use crate::color::{normal_color, sky_color, channel_byte, RGBAColor};
use crate::fixed::{div_floor_i128, lemma_div_bounds, lemma_div_shrinks, SCALE};
use crate::hit::Hit;
use crate::plane::Plane;
use crate::point::Point3;
use crate::ray::Ray;
use crate::sphere::Sphere;
use crate::traits::{Intersectable, WORLD_BOUND};
use crate::vec::{bounded, diff_v, norm_v, sq_sum, Vec3};

verus! {

/// Camera movement per key press: half a unit.
pub const CAMERA_STEP: i64 = 0x8000;

/// Largest pixel width of a window.
pub const MAX_WINDOW_WIDTH: i64 = 16384;

/// Bound on the raw components of the viewport vectors.
pub const VIEW_SLACK: i64 = 0x1_0000_0000;

/// The screen: pixel width, and the height that the fixed 16:9 aspect ratio
/// gives it.
#[derive(Debug, Clone, Copy, PartialEq, Eq, Structural)]
pub struct Window {
    pub width: i64,
    pub height: i64,
}

impl Window {
    /// Height follows from the width by the 16:9 aspect ratio; widths that
    /// would give a degenerate height (below 2) are rejected up front.
    pub fn new(width: i64) -> (w: Self)
        requires
            4 <= width <= MAX_WINDOW_WIDTH,
        ensures
            w.width == width,
            w.height == (9 * width) / 16,
            2 <= w.height <= w.width,
    {
        let height = ((9 * width as u64) / 16) as i64;
        proof {
            lemma_div_bounds(9 * width, 16, 36, 9 * (MAX_WINDOW_WIDTH as int));
            lemma_div_bounds(9 * width, 16, 9 * width, 16 * width);
            vstd::arithmetic::div_mod::lemma_div_multiples_vanish(width as int, 16);
        }
        Self { width, height }
    }
}

/// The camera: the location every ray originates from.
#[derive(Debug, Clone, Copy, PartialEq, Eq, Structural)]
pub struct Camera {
    pub location: Point3,
}

impl Camera {
    pub fn new(location: Point3) -> (c: Self)
        ensures
            c.location == location,
    {
        Self { location }
    }
}

/// Which of the six movement keys are down at a frame boundary.
#[derive(Debug, Clone, Copy, PartialEq, Eq, Structural, Default)]
pub struct KeyPresses {
    pub forward: bool,
    pub backward: bool,
    pub left: bool,
    pub right: bool,
    pub up: bool,
    pub down: bool,
}

/// The net movement along one axis: a step for the positive key, minus a
/// step for the negative key.
pub open spec fn axis_delta(pos: bool, neg: bool) -> int {
    (if pos {
        CAMERA_STEP as int
    } else {
        0
    }) - (if neg {
        CAMERA_STEP as int
    } else {
        0
    })
}

/// Apply the pressed movement keys to the camera location, one half-unit
/// step each, between frames.  The axis convention: forward grows `z`, left
/// grows `x`, up shrinks `y`.
pub fn move_camera_on_key_press(camera: &mut Camera, keys: &KeyPresses)
    requires
        bounded(old(camera).location, WORLD_BOUND as int - CAMERA_STEP as int),
    ensures
        final(camera).location.x == old(camera).location.x + axis_delta(keys.left, keys.right),
        final(camera).location.y == old(camera).location.y + axis_delta(keys.down, keys.up),
        final(camera).location.z == old(camera).location.z + axis_delta(keys.forward, keys.backward),
        bounded(final(camera).location, WORLD_BOUND as int),
{
    if keys.forward {
        camera.location.z = camera.location.z + CAMERA_STEP;
    }
    if keys.backward {
        camera.location.z = camera.location.z - CAMERA_STEP;
    }
    if keys.left {
        camera.location.x = camera.location.x + CAMERA_STEP;
    }
    if keys.right {
        camera.location.x = camera.location.x - CAMERA_STEP;
    }
    if keys.up {
        camera.location.y = camera.location.y - CAMERA_STEP;
    }
    if keys.down {
        camera.location.y = camera.location.y + CAMERA_STEP;
    }
}

/// The viewport width in fixed point: height 2.0 times the aspect ratio.
pub open spec fn viewport_width_fx(w: int, h: int) -> int {
    (2 * (SCALE as int) * w) / h
}

/// The horizontal distance between two pixel centers.
pub open spec fn delta_u_fx(w: int, h: int) -> int {
    viewport_width_fx(w, h) / w
}

/// The vertical distance between two pixel centers (negative: rows go down).
pub open spec fn delta_v_fx(h: int) -> int {
    (-(2 * (SCALE as int))) / h
}

/// The 2-D rectangle in front of the camera that rays are shot through: the
/// world position of the first pixel center and the per-pixel step vectors.
#[derive(Debug, Clone, Copy, PartialEq, Eq, Structural)]
pub struct Viewport {
    pub starting_pixel: Vec3,
    pub pixel_delta_u: Vec3,
    pub pixel_delta_v: Vec3,
}

impl Viewport {
    /// The step vectors are axis-aligned and small; the starting pixel stays
    /// near the camera.
    pub open spec fn wf(self) -> bool {
        &&& bounded(self.starting_pixel, WORLD_BOUND as int + VIEW_SLACK as int)
        &&& bounded(self.pixel_delta_u, VIEW_SLACK as int)
        &&& bounded(self.pixel_delta_v, VIEW_SLACK as int)
        &&& self.pixel_delta_u.y == 0
        &&& self.pixel_delta_u.z == 0
        &&& self.pixel_delta_v.x == 0
        &&& self.pixel_delta_v.z == 0
    }

    /// Viewport geometry from the window and the camera: viewport height
    /// fixed at 2.0, focal length at 1.0, width from the aspect ratio; the
    /// starting pixel sits half a pixel step in from the upper-left corner.
    pub fn new(window: &Window, camera: &Camera) -> (vp: Self)
        requires
            4 <= window.width <= MAX_WINDOW_WIDTH,
            2 <= window.height <= window.width,
            bounded(camera.location, WORLD_BOUND as int),
        ensures
            vp.pixel_delta_u.x == delta_u_fx(window.width as int, window.height as int),
            vp.pixel_delta_v.y == delta_v_fx(window.height as int),
            vp.starting_pixel.x == camera.location.x
                - viewport_width_fx(window.width as int, window.height as int) / 2
                + delta_u_fx(window.width as int, window.height as int) / 2,
            vp.starting_pixel.y == camera.location.y + SCALE
                + delta_v_fx(window.height as int) / 2,
            vp.starting_pixel.z == camera.location.z - SCALE,
            vp.wf(),
    {
        let w = window.width;
        let h = window.height;
        proof {
            assert(2 * (SCALE as int) * (w as int) == 131072 * (w as int)) by (nonlinear_arith)
                requires
                    SCALE as int == 65536,
            ;
            lemma_div_shrinks(131072 * (w as int), h as int, 0x8000_0000);
        }
        let vw = div_floor_i128(131072 * (w as i128), h as i128) as i64;
        proof {
            assert(vw == viewport_width_fx(w as int, h as int));
            lemma_div_shrinks(vw as int, w as int, 0x8000_0000);
            lemma_div_shrinks(-131072, h as int, 131072);
        }
        let du = div_floor_i128(vw as i128, w as i128) as i64;
        let dv = div_floor_i128(-131072, h as i128) as i64;
        proof {
            assert(dv == delta_v_fx(h as int));
            lemma_div_shrinks(vw as int, 2, 0x8000_0000);
            lemma_div_shrinks(du as int, 2, 0x8000_0000);
            lemma_div_shrinks(dv as int, 2, 131072);
        }
        let half_vw = div_floor_i128(vw as i128, 2) as i64;
        let half_u = div_floor_i128(du as i128, 2) as i64;
        let half_v = div_floor_i128(dv as i128, 2) as i64;
        let starting_pixel = Vec3::new(
            camera.location.x - half_vw + half_u,
            camera.location.y + SCALE + half_v,
            camera.location.z - SCALE,
        );
        Self {
            starting_pixel,
            pixel_delta_u: Vec3::new(du, 0, 0),
            pixel_delta_v: Vec3::new(0, dv, 0),
        }
    }
}

/// The center of pixel `(x, y)`: the starting pixel advanced by whole pixel
/// steps.
pub open spec fn pixel_center(vp: Viewport, x: int, y: int) -> Vec3 {
    Vec3 {
        x: (vp.starting_pixel.x + x * vp.pixel_delta_u.x + y * vp.pixel_delta_v.x) as i64,
        y: (vp.starting_pixel.y + x * vp.pixel_delta_u.y + y * vp.pixel_delta_v.y) as i64,
        z: vp.starting_pixel.z,
    }
}

/// The un-normalised direction of the ray through pixel `(x, y)`.
pub open spec fn pixel_dir(vp: Viewport, cam: Camera, x: int, y: int) -> Vec3 {
    diff_v(pixel_center(vp, x, y), cam.location)
}

/// The ray through pixel `(x, y)`.
pub open spec fn pixel_ray_spec(vp: Viewport, cam: Camera, x: int, y: int) -> Ray {
    Ray { origin: cam.location, direction: norm_v(pixel_dir(vp, cam, x, y)) }
}

/// A whole-pixel multiple of a viewport step stays small.
proof fn lemma_pixel_mul(x: int, d: int)
    requires
        0 <= x <= 0x1_0000,
        -(VIEW_SLACK as int) <= d <= VIEW_SLACK as int,
    ensures
        -0x1_0000_0000_0000 <= x * d <= 0x1_0000_0000_0000,
{
    assert(-0x1_0000_0000_0000 <= x * d <= 0x1_0000_0000_0000) by (nonlinear_arith)
        requires
            0 <= x <= 0x1_0000,
            -0x1_0000_0000 <= d <= 0x1_0000_0000,
    ;
}

/// The ray from the camera through the center of pixel `(x, y)`.
pub fn pixel_ray(vp: &Viewport, camera: &Camera, x: i64, y: i64) -> (r: Ray)
    requires
        vp.wf(),
        bounded(camera.location, WORLD_BOUND as int),
        vp.starting_pixel.z == camera.location.z - SCALE,
        0 <= x <= 0x1_0000,
        0 <= y <= 0x1_0000,
    ensures
        r == pixel_ray_spec(*vp, *camera, x as int, y as int),
        r.origin == camera.location,
        r.wf(),
{
    proof {
        lemma_pixel_mul(x as int, vp.pixel_delta_u.x as int);
        lemma_pixel_mul(x as int, vp.pixel_delta_u.y as int);
        lemma_pixel_mul(y as int, vp.pixel_delta_v.x as int);
        lemma_pixel_mul(y as int, vp.pixel_delta_v.y as int);
    }
    let center = Vec3::new(
        vp.starting_pixel.x + x * vp.pixel_delta_u.x + y * vp.pixel_delta_v.x,
        vp.starting_pixel.y + x * vp.pixel_delta_u.y + y * vp.pixel_delta_v.y,
        vp.starting_pixel.z,
    );
    let dir = center.subtract(camera.location);
    proof {
        assert(dir.z == -(SCALE as int));
        assert((SCALE as int) * (SCALE as int) <= sq_sum(dir)) by (nonlinear_arith)
            requires
                dir.z == -65536,
                SCALE as int == 65536,
        ;
    }
    Ray::new(camera.location, dir)
}

/// The scene's mixed primitive list: each entry one of the primitive kinds.
#[derive(Debug, Clone, Copy, PartialEq, Eq, Structural)]
pub enum Primitive {
    Sphere(Sphere),
    Plane(Plane),
}

impl Intersectable for Primitive {
    open spec fn wf(&self) -> bool {
        match *self {
            Primitive::Sphere(s) => s.wf(),
            Primitive::Plane(p) => p.wf(),
        }
    }

    open spec fn probe(&self, ray: Ray) -> bool {
        match *self {
            Primitive::Sphere(s) => s.probe(ray),
            Primitive::Plane(p) => p.probe(ray),
        }
    }

    open spec fn hit_model(&self, ray: Ray) -> Option<Seq<Hit>> {
        match *self {
            Primitive::Sphere(s) => s.hit_model(ray),
            Primitive::Plane(p) => p.hit_model(ray),
        }
    }

    fn intersect(&self, ray: &Ray) -> (b: bool) {
        match self {
            Primitive::Sphere(s) => s.intersect(ray),
            Primitive::Plane(p) => p.intersect(ray),
        }
    }

    fn intersect_hits(&self, ray: &Ray) -> (hits: Option<Vec<Hit>>) {
        match self {
            Primitive::Sphere(s) => s.intersect_hits(ray),
            Primitive::Plane(p) => p.intersect_hits(ray),
        }
    }
}

/// Every primitive of the scene is well formed.
pub open spec fn all_wf(obs: Seq<Primitive>) -> bool {
    forall|i: int| 0 <= i < obs.len() ==> (#[trigger] obs[i]).wf()
}

/// The shading decision for one primitive's hit list: the first hit's normal
/// if it lies in front of the camera, the background gradient otherwise.
pub open spec fn shade_hits(h: Option<Seq<Hit>>, r: Ray) -> RGBAColor {
    match h {
        Some(v) => if v.len() > 0 && v[0].t > 0 {
            normal_color(v[0].normal)
        } else {
            sky_color(r)
        },
        None => sky_color(r),
    }
}

/// The color of one ray: the first primitive whose existence probe succeeds
/// shades the pixel — the selection short-circuits on probe order, so it is
/// not necessarily the nearest primitive along the ray, a deliberate quirk of
/// this renderer; with no probe success the background gradient shades it.
pub open spec fn pixel_color_spec(obs: Seq<Primitive>, r: Ray) -> RGBAColor
    decreases obs.len(),
{
    if obs.len() == 0 {
        sky_color(r)
    } else if obs[0].probe(r) {
        shade_hits(obs[0].hit_model(r), r)
    } else {
        pixel_color_spec(obs.skip(1), r)
    }
}

/// Shade one ray against the scene.
pub fn pixel_color(objects: &Vec<Primitive>, ray: &Ray) -> (c: RGBAColor)
    requires
        all_wf(objects@),
        ray.wf(),
        bounded(ray.origin, WORLD_BOUND as int),
    ensures
        c == pixel_color_spec(objects@, *ray),
{
    let mut i: usize = 0;
    proof {
        assert(objects@.skip(0) =~= objects@);
    }
    while i < objects.len()
        invariant
            all_wf(objects@),
            ray.wf(),
            bounded(ray.origin, WORLD_BOUND as int),
            0 <= i <= objects.len(),
            pixel_color_spec(objects@, *ray) == pixel_color_spec(objects@.skip(i as int), *ray),
        decreases objects.len() - i,
    {
        let o = objects[i];
        proof {
            assert(objects@.skip(i as int)[0] == objects@[i as int]);
        }
        if o.intersect(ray) {
            let hits = o.intersect_hits(ray);
            match hits {
                Some(v) => {
                    if v.len() > 0 {
                        let first = v[0];
                        if first.t > 0 {
                            proof {
                                lemma_hit_normal_bounded(o, *ray, first);
                            }
                            return RGBAColor::from_surface_normal(first.normal);
                        }
                    }
                    return RGBAColor::white_blue_blend_over_y(ray);
                },
                None => {
                    return RGBAColor::white_blue_blend_over_y(ray);
                },
            }
        }
        proof {
            assert(objects@.skip(i as int).skip(1) =~= objects@.skip(i as int + 1));
        }
        i = i + 1;
    }
    proof {
        assert(objects@.skip(i as int).len() == 0);
    }
    RGBAColor::white_blue_blend_over_y(ray)
}

/// The byte triple a color is written out as.
pub open spec fn rgb_of(c: RGBAColor) -> (u8, u8, u8) {
    (channel_byte(c.r as int) as u8, channel_byte(c.g as int) as u8, channel_byte(c.b as int) as u8)
}

/// The byte triple of pixel `j` of a row-major frame.
pub open spec fn frame_pixel(
    obs: Seq<Primitive>,
    vp: Viewport,
    cam: Camera,
    width: int,
    j: int,
) -> (u8, u8, u8) {
    rgb_of(pixel_color_spec(obs, pixel_ray_spec(vp, cam, j % width, j / width)))
}

/// Render a whole frame: one shading decision per pixel, row-major,
/// top-to-bottom, left-to-right.
pub fn render_frame(
    objects: &Vec<Primitive>,
    vp: &Viewport,
    camera: &Camera,
    width: i64,
    height: i64,
) -> (pixels: Vec<(u8, u8, u8)>)
    requires
        all_wf(objects@),
        vp.wf(),
        bounded(camera.location, WORLD_BOUND as int),
        vp.starting_pixel.z == camera.location.z - SCALE,
        1 <= width <= 0x1_0000,
        1 <= height <= 0x1_0000,
    ensures
        pixels@.len() == width * height,
        forall|j: int| 0 <= j < width * height ==> #[trigger] pixels@[j] == frame_pixel(
            objects@,
            *vp,
            *camera,
            width as int,
            j,
        ),
{
    let mut pixels: Vec<(u8, u8, u8)> = Vec::new();
    let mut yy: i64 = 0;
    while yy < height
        invariant
            all_wf(objects@),
            vp.wf(),
            bounded(camera.location, WORLD_BOUND as int),
            vp.starting_pixel.z == camera.location.z - SCALE,
            1 <= width <= 0x1_0000,
            1 <= height <= 0x1_0000,
            0 <= yy <= height,
            pixels@.len() == yy * width,
            forall|j: int| 0 <= j < pixels@.len() ==> #[trigger] pixels@[j] == frame_pixel(
                objects@,
                *vp,
                *camera,
                width as int,
                j,
            ),
        decreases height - yy,
    {
        let mut xx: i64 = 0;
        proof {
            lemma_mul_is_distributive_add(width as int, yy as int, 1);
            assert((yy as int) * (width as int) == (width as int) * (yy as int))
                by (nonlinear_arith);
            assert(0 <= (yy as int) * (width as int) <= 0x1_0000_0000_0000) by (nonlinear_arith)
                requires
                    0 <= yy <= 0x1_0000,
                    1 <= width <= 0x1_0000,
            ;
        }
        while xx < width
            invariant
                all_wf(objects@),
                vp.wf(),
                bounded(camera.location, WORLD_BOUND as int),
                vp.starting_pixel.z == camera.location.z - SCALE,
                1 <= width <= 0x1_0000,
                1 <= height <= 0x1_0000,
                0 <= yy < height,
                0 <= xx <= width,
                0 <= (yy as int) * (width as int) <= 0x1_0000_0000_0000,
                pixels@.len() == yy * width + xx,
                forall|j: int| 0 <= j < pixels@.len() ==> #[trigger] pixels@[j] == frame_pixel(
                    objects@,
                    *vp,
                    *camera,
                    width as int,
                    j,
                ),
            decreases width - xx,
        {
            let ray = pixel_ray(vp, camera, xx, yy);
            let color = pixel_color(objects, &ray);
            proof {
                lemma_fundamental_div_mod_converse(
                    (yy as int) * (width as int) + xx,
                    width as int,
                    yy as int,
                    xx as int,
                );
            }
            pixels.push(color.as_rgb_tuple());
            xx = xx + 1;
        }
        proof {
            lemma_mul_is_distributive_add(width as int, yy as int, 1);
            assert((width as int) * (yy as int) == (yy as int) * (width as int))
                by (nonlinear_arith);
            assert((width as int) * ((yy as int) + 1) == ((yy as int) + 1) * (width as int))
                by (nonlinear_arith);
        }
        yy = yy + 1;
    }
    proof {
        assert((height as int) * (width as int) == (width as int) * (height as int))
            by (nonlinear_arith);
    }
    pixels
}

/// Every normal a primitive reports has components within the
/// normal-shading bound: a sphere's is normalised (or zero), a plane's is
/// its orientation vector.
proof fn lemma_hit_normal_bounded(o: Primitive, r: Ray, h: Hit)
    requires
        o.wf(),
        o.hit_model(r) matches Some(v) && v.len() > 0 && v[0] == h,
    ensures
        bounded(h.normal, crate::color::NORMAL_BOUND as int),
{
    match o {
        Primitive::Sphere(s) => {
            let hm = o.hit_model(r)->Some_0;
            let d = crate::sphere::half_disc(s, r);
            if d == 0 {
                crate::sphere::lemma_sphere_hit_normal(
                    s,
                    r,
                    crate::fixed::div_fx(
                        crate::sphere::half_h(s, r),
                        crate::sphere::half_a(r),
                    ) as i64,
                );
            } else {
                crate::sphere::lemma_sphere_hit_normal(
                    s,
                    r,
                    crate::sphere::root_far(
                        crate::sphere::half_h(s, r),
                        crate::sphere::half_a(r),
                        d,
                    ) as i64,
                );
            }
        },
        Primitive::Plane(p) => {
        },
    }
}

} // verus!
