//! The RGBA color model and the two shading rules.
//!
//! Channels are fixed-point scalars kept in byte range `[0, 255]` (raw
//! `[0, CHANNEL_MAX]`); that one convention is used throughout — blending
//! works directly on byte-range channels and nothing is rescaled afterward.

use vstd::prelude::*;
use vstd::arithmetic::div_mod::{lemma_div_is_ordered, lemma_div_multiples_vanish};
use crate::fixed::{lemma_div_add_le, lemma_div_bounds, lemma_mul_fx_bound, mul_fx, fx_mul, SCALE};
use crate::ray::Ray;
use crate::vec::{bounded, norm_v, sq_sum, Vec3};

verus! {

/// Full intensity of one channel: 255 in fixed point.
pub const CHANNEL_MAX: i64 = 0xff_0000;

/// The normal-shading factor: half of the near-full intensity 255.99, in
/// fixed point.  A channel can reach `2 * HALF_CHANNEL`, a whisker above
/// full intensity; the sink conversion clamps it back to a full byte.
pub const HALF_CHANNEL: i64 = 8388280;

/// The fixed light blue that the background gradient blends toward:
/// `(76.5, 127.5, 255)` in byte range.
pub const HORIZON_R: i64 = 0x4c_8000;

pub const HORIZON_G: i64 = 0x7f_8000;

pub const HORIZON_B: i64 = 0xff_0000;

/// Largest component magnitude the normal-shading rule accepts; plane
/// orientation vectors are held to the same bound.
pub const NORMAL_BOUND: i64 = 0x100_0000;

/// A channel lies in the byte range.
pub open spec fn channel_in_range(c: int) -> bool {
    0 <= c <= CHANNEL_MAX
}

/// A color: red, green, blue and alpha channels, each a fixed-point scalar
/// conceptually in byte range (validated at `new`, not at every arithmetic
/// step).
#[derive(Debug, Clone, Copy, PartialEq, Eq, Structural)]
pub struct RGBAColor {
    pub r: i64,
    pub g: i64,
    pub b: i64,
    pub a: i64,
}

/// The gradient's blend factor for a ray: `(unit.y + 1) / 2`, mapping a
/// vertical direction component in `[-1, 1]` to `[0, 1]`.
pub open spec fn blend_factor(r: Ray) -> int {
    (norm_v(r.direction).y + SCALE) / 2
}

/// One channel of the gradient: `(1 - a) * white + a * horizon`.
pub open spec fn blend_channel(a: int, horizon: int) -> int {
    mul_fx(SCALE as int - a, CHANNEL_MAX as int) + mul_fx(a, horizon)
}

/// The background gradient color of a ray.
pub open spec fn sky_color(r: Ray) -> RGBAColor {
    RGBAColor {
        r: blend_channel(blend_factor(r), HORIZON_R as int) as i64,
        g: blend_channel(blend_factor(r), HORIZON_G as int) as i64,
        b: blend_channel(blend_factor(r), HORIZON_B as int) as i64,
        a: CHANNEL_MAX,
    }
}

/// One channel of the normal-shading rule: `(n + 1) * 0.5 * 255.99`, a
/// direct visualization of the surface normal, clamped to a byte only at
/// the sink.
pub open spec fn normal_channel(n: int) -> int {
    mul_fx(n + SCALE as int, HALF_CHANNEL as int)
}

/// The color that visualizes a surface normal.
pub open spec fn normal_color(n: Vec3) -> RGBAColor {
    RGBAColor {
        r: normal_channel(n.x as int) as i64,
        g: normal_channel(n.y as int) as i64,
        b: normal_channel(n.z as int) as i64,
        a: CHANNEL_MAX,
    }
}

/// The byte a channel is written out as: clamped into range at the sink,
/// then truncated to whole intensity steps.
pub open spec fn channel_byte(c: int) -> int {
    if c < 0 {
        0
    } else if c > CHANNEL_MAX {
        255
    } else {
        c / (SCALE as int)
    }
}

impl RGBAColor {
    /// The validated constructor: a value only for channels in byte range;
    /// alpha defaults to full opacity.
    pub fn new(r: i64, g: i64, b: i64) -> (c: Option<Self>)
        ensures
            (c is Some) <==> (channel_in_range(r as int) && channel_in_range(g as int)
                && channel_in_range(b as int)),
            c matches Some(col) ==> col == (RGBAColor { r, g, b, a: CHANNEL_MAX }),
    {
        if r < 0 || r > CHANNEL_MAX || g < 0 || g > CHANNEL_MAX || b < 0 || b > CHANNEL_MAX {
            None
        } else {
            Some(Self { r, g, b, a: CHANNEL_MAX })
        }
    }

    /// Scaling multiplies the color channels and leaves alpha unchanged.
    pub fn scale(self, rhs: i64) -> (c: Self)
        requires
            i64::MIN <= mul_fx(self.r as int, rhs as int) <= i64::MAX,
            i64::MIN <= mul_fx(self.g as int, rhs as int) <= i64::MAX,
            i64::MIN <= mul_fx(self.b as int, rhs as int) <= i64::MAX,
        ensures
            c.r == mul_fx(self.r as int, rhs as int),
            c.g == mul_fx(self.g as int, rhs as int),
            c.b == mul_fx(self.b as int, rhs as int),
            c.a == self.a,
    {
        Self { r: fx_mul(self.r, rhs), g: fx_mul(self.g, rhs), b: fx_mul(self.b, rhs), a: self.a }
    }

    /// Addition sums the color channels and re-validates: an out-of-range
    /// sum yields no value rather than clamping.
    pub fn add(self, rhs: Self) -> (c: Option<Self>)
        requires
            i64::MIN <= self.r + rhs.r <= i64::MAX,
            i64::MIN <= self.g + rhs.g <= i64::MAX,
            i64::MIN <= self.b + rhs.b <= i64::MAX,
        ensures
            (c is Some) <==> (channel_in_range(self.r + rhs.r) && channel_in_range(self.g + rhs.g)
                && channel_in_range(self.b + rhs.b)),
            c matches Some(col) ==> col == (RGBAColor {
                r: (self.r + rhs.r) as i64,
                g: (self.g + rhs.g) as i64,
                b: (self.b + rhs.b) as i64,
                a: CHANNEL_MAX,
            }),
    {
        Self::new(self.r + rhs.r, self.g + rhs.g, self.b + rhs.b)
    }

    /// The sink conversion: each channel clamped into byte range and
    /// truncated to a byte.
    pub fn as_rgb_tuple(self) -> (t: (u8, u8, u8))
        ensures
            t.0 == channel_byte(self.r as int),
            t.1 == channel_byte(self.g as int),
            t.2 == channel_byte(self.b as int),
    {
        (channel_to_byte(self.r), channel_to_byte(self.g), channel_to_byte(self.b))
    }

    /// The background gradient: blend white toward the horizon blue by how
    /// far up the ray points.
    pub fn white_blue_blend_over_y(r: &Ray) -> (c: Self)
        requires
            r.wf(),
        ensures
            c == sky_color(*r),
            channel_in_range(c.r as int),
            channel_in_range(c.g as int),
            channel_in_range(c.b as int),
    {
        proof {
            lemma_wf_dir_nonzero(*r);
        }
        let unit = r.direction.normalise();
        let af = ((unit.y + SCALE) as u64 / 2) as i64;
        proof {
            lemma_div_bounds((unit.y + SCALE) as int, 2, 0, 2 * (SCALE as int));
            lemma_blend_in_range(af as int, HORIZON_R as int);
            lemma_blend_in_range(af as int, HORIZON_G as int);
            lemma_blend_in_range(af as int, HORIZON_B as int);
        }
        let cr = fx_mul(SCALE - af, CHANNEL_MAX) + fx_mul(af, HORIZON_R);
        let cg = fx_mul(SCALE - af, CHANNEL_MAX) + fx_mul(af, HORIZON_G);
        let cb = fx_mul(SCALE - af, CHANNEL_MAX) + fx_mul(af, HORIZON_B);
        Self { r: cr, g: cg, b: cb, a: CHANNEL_MAX }
    }

    /// The normal-shading rule: map each component of a unit surface normal
    /// from `[-1, 1]` toward byte range (overshooting it by at most 0.99
    /// intensity steps, absorbed by the clamp at the sink).
    pub fn from_surface_normal(normal: Vec3) -> (c: Self)
        requires
            bounded(normal, NORMAL_BOUND as int),
        ensures
            c == normal_color(normal),
            bounded(normal, SCALE as int) ==> 0 <= c.r <= 2 * HALF_CHANNEL
                && 0 <= c.g <= 2 * HALF_CHANNEL && 0 <= c.b <= 2 * HALF_CHANNEL,
    {
        proof {
            lemma_mul_fx_bound(
                normal.x + SCALE as int,
                HALF_CHANNEL as int,
                0x110_0000,
                HALF_CHANNEL as int,
            );
            lemma_mul_fx_bound(
                normal.y + SCALE as int,
                HALF_CHANNEL as int,
                0x110_0000,
                HALF_CHANNEL as int,
            );
            lemma_mul_fx_bound(
                normal.z + SCALE as int,
                HALF_CHANNEL as int,
                0x110_0000,
                HALF_CHANNEL as int,
            );
            if bounded(normal, SCALE as int) {
                lemma_normal_channel_in_range(normal.x as int);
                lemma_normal_channel_in_range(normal.y as int);
                lemma_normal_channel_in_range(normal.z as int);
            }
        }
        Self {
            r: fx_mul(normal.x + SCALE, HALF_CHANNEL),
            g: fx_mul(normal.y + SCALE, HALF_CHANNEL),
            b: fx_mul(normal.z + SCALE, HALF_CHANNEL),
            a: CHANNEL_MAX,
        }
    }
}

/// Clamp one channel into byte range and truncate it to a byte.
fn channel_to_byte(c: i64) -> (b: u8)
    ensures
        b == channel_byte(c as int),
{
    if c < 0 {
        0
    } else if c > CHANNEL_MAX {
        255
    } else {
        proof {
            lemma_div_bounds(c as int, SCALE as int, 0, CHANNEL_MAX as int);
        }
        ((c as u64) / (SCALE as u64)) as u8
    }
}

/// A well-formed ray's direction has a nonzero square sum.
proof fn lemma_wf_dir_nonzero(r: Ray)
    requires
        r.wf(),
    ensures
        1 <= sq_sum(r.direction),
{
    let d = r.direction;
    assert(0 <= d.x * d.x) by (nonlinear_arith);
    assert(0 <= d.y * d.y) by (nonlinear_arith);
    assert(0 <= d.z * d.z) by (nonlinear_arith);
    if sq_sum(d) == 0 {
        assert(crate::vec::dot_fx(d, d) == 0);
        assert(false);
    }
}

/// A blend of two in-range channels stays in range.
proof fn lemma_blend_in_range(a: int, horizon: int)
    requires
        0 <= a <= SCALE as int,
        0 <= horizon <= CHANNEL_MAX as int,
    ensures
        0 <= blend_channel(a, horizon) <= CHANNEL_MAX as int,
        0 <= mul_fx(SCALE as int - a, CHANNEL_MAX as int) <= CHANNEL_MAX as int,
        0 <= mul_fx(a, horizon) <= CHANNEL_MAX as int,
{
    let s = SCALE as int;
    let w = CHANNEL_MAX as int;
    assert(0 <= (s - a) * w) by (nonlinear_arith)
        requires
            0 <= s - a,
            0 <= w,
    ;
    assert(0 <= a * horizon) by (nonlinear_arith)
        requires
            0 <= a,
            0 <= horizon,
    ;
    assert((s - a) * w <= s * w) by (nonlinear_arith)
        requires
            0 <= s - a <= s,
            0 <= w,
    ;
    assert(a * horizon <= s * w) by (nonlinear_arith)
        requires
            0 <= a <= s,
            0 <= horizon <= w,
    ;
    lemma_div_bounds((s - a) * w, s, 0, s * w);
    lemma_div_bounds(a * horizon, s, 0, s * w);
    lemma_div_multiples_vanish(w, s);
    lemma_div_add_le((s - a) * w, a * horizon, s);
    assert((s - a) * w + a * horizon <= s * w) by (nonlinear_arith)
        requires
            0 <= a <= s,
            0 <= horizon <= w,
    ;
    lemma_div_is_ordered((s - a) * w + a * horizon, s * w, s);
}

/// A normal-shading channel of a unit-bounded component stays between zero
/// and twice the shading factor.
proof fn lemma_normal_channel_in_range(n: int)
    requires
        -(SCALE as int) <= n <= SCALE as int,
    ensures
        0 <= normal_channel(n) <= 2 * (HALF_CHANNEL as int),
{
    let s = SCALE as int;
    let k = HALF_CHANNEL as int;
    assert(0 <= (n + s) * k <= s * (2 * k)) by (nonlinear_arith)
        requires
            0 <= n + s <= 2 * s,
            0 <= k,
    ;
    lemma_div_bounds((n + s) * k, s, 0, s * (2 * k));
    lemma_div_multiples_vanish(2 * k, s);
}

} // verus!
