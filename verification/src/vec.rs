//! 3-D vector algebra over fixed-point scalars.

use vstd::prelude::*;
use vstd::arithmetic::div_mod::lemma_fundamental_div_mod;
use crate::fixed::{
    div_fx, fx_div, fx_mul, is_sqrt_floor, isqrt_u128, lemma_div_bounds, lemma_sqrt_floor,
    mul_fx, sqrt_floor, SCALE,
};

verus! {

/// A 3-D vector; each component is a fixed-point scalar (`SCALE` units per
/// real unit).
#[derive(Debug, Clone, Copy, PartialEq, Eq, Structural)]
pub struct Vec3 {
    pub x: i64,
    pub y: i64,
    pub z: i64,
}

/// Every component of `v` lies in `[-b, b]`.
pub open spec fn bounded(v: Vec3, b: int) -> bool {
    &&& -b <= v.x <= b
    &&& -b <= v.y <= b
    &&& -b <= v.z <= b
}

/// Sum of the squares of the raw components: `SCALE * SCALE` times the square
/// of the real length of `v`.
pub open spec fn sq_sum(v: Vec3) -> int {
    v.x * v.x + v.y * v.y + v.z * v.z
}

/// The fixed-point dot product: the component products are summed exactly and
/// rescaled once, rounding toward negative infinity.
pub open spec fn dot_fx(a: Vec3, b: Vec3) -> int {
    (a.x * b.x + a.y * b.y + a.z * b.z) / (SCALE as int)
}

/// The fixed-point magnitude of `v`: the rounded-down square root of the raw
/// component squares, which is `SCALE` times the real length.
pub open spec fn mag_fx(v: Vec3) -> int {
    sqrt_floor(sq_sum(v))
}

/// The component-wise sum, as a spec-level value (meaningful when the sums
/// fit in `i64`).
pub open spec fn add_v(a: Vec3, b: Vec3) -> Vec3 {
    Vec3 { x: (a.x + b.x) as i64, y: (a.y + b.y) as i64, z: (a.z + b.z) as i64 }
}

/// The component-wise difference, as a spec-level value (meaningful when the
/// differences fit in `i64`).
pub open spec fn diff_v(a: Vec3, b: Vec3) -> Vec3 {
    Vec3 { x: (a.x - b.x) as i64, y: (a.y - b.y) as i64, z: (a.z - b.z) as i64 }
}

/// The normalised vector: each component divided by the fixed-point
/// magnitude (meaningful for a nonzero vector).
pub open spec fn norm_v(v: Vec3) -> Vec3 {
    Vec3 {
        x: div_fx(v.x as int, mag_fx(v)) as i64,
        y: div_fx(v.y as int, mag_fx(v)) as i64,
        z: div_fx(v.z as int, mag_fx(v)) as i64,
    }
}

/// Largest component bound accepted by `dot`: with both vectors bounded by
/// this, the scaled product sum stays within `i64`.
pub const DOT_BOUND: i64 = 0x40_0000_0000;

/// Largest component bound accepted by `magnitude` and `normalise`.
pub const MAG_BOUND: i64 = 0x4000_0000_0000_0000;

impl Vec3 {
    pub fn new(x: i64, y: i64, z: i64) -> (v: Self)
        ensures
            v == (Vec3 { x, y, z }),
    {
        Self { x, y, z }
    }

    /// Component-wise sum.
    pub fn add(self, rhs: Vec3) -> (v: Vec3)
        requires
            i64::MIN <= self.x + rhs.x <= i64::MAX,
            i64::MIN <= self.y + rhs.y <= i64::MAX,
            i64::MIN <= self.z + rhs.z <= i64::MAX,
        ensures
            v == add_v(self, rhs),
            v.x == self.x + rhs.x,
            v.y == self.y + rhs.y,
            v.z == self.z + rhs.z,
    {
        Vec3 { x: self.x + rhs.x, y: self.y + rhs.y, z: self.z + rhs.z }
    }

    /// Component-wise difference.
    pub fn subtract(self, rhs: Vec3) -> (v: Vec3)
        requires
            i64::MIN <= self.x - rhs.x <= i64::MAX,
            i64::MIN <= self.y - rhs.y <= i64::MAX,
            i64::MIN <= self.z - rhs.z <= i64::MAX,
        ensures
            v == diff_v(self, rhs),
            v.x == self.x - rhs.x,
            v.y == self.y - rhs.y,
            v.z == self.z - rhs.z,
    {
        Vec3 { x: self.x - rhs.x, y: self.y - rhs.y, z: self.z - rhs.z }
    }

    /// Scaling by a fixed-point scalar; each component is rescaled with
    /// `mul_fx`.
    pub fn scale(self, rhs: i64) -> (v: Vec3)
        requires
            i64::MIN <= mul_fx(self.x as int, rhs as int) <= i64::MAX,
            i64::MIN <= mul_fx(self.y as int, rhs as int) <= i64::MAX,
            i64::MIN <= mul_fx(self.z as int, rhs as int) <= i64::MAX,
        ensures
            v.x == mul_fx(self.x as int, rhs as int),
            v.y == mul_fx(self.y as int, rhs as int),
            v.z == mul_fx(self.z as int, rhs as int),
    {
        Vec3 { x: fx_mul(self.x, rhs), y: fx_mul(self.y, rhs), z: fx_mul(self.z, rhs) }
    }

    /// The fixed-point dot product of `self` and `v`.
    pub fn dot(&self, v: &Self) -> (r: i64)
        requires
            bounded(*self, DOT_BOUND as int),
            bounded(*v, DOT_BOUND as int),
        ensures
            r == dot_fx(*self, *v),
    {
        proof {
            lemma_dot_sum_bound(*self, *v, DOT_BOUND as int);
            lemma_div_bounds(
                self.x * v.x + self.y * v.y + self.z * v.z,
                SCALE as int,
                -(3 * ((DOT_BOUND as int) * (DOT_BOUND as int))),
                3 * ((DOT_BOUND as int) * (DOT_BOUND as int)),
            );
        }
        let s: i128 = (self.x as i128) * (v.x as i128) + (self.y as i128) * (v.y as i128)
            + (self.z as i128) * (v.z as i128);
        let q: i128 = crate::fixed::div_floor_i128(s, SCALE as i128);
        q as i64
    }

    /// The fixed-point length of `self`: the rounded-down square root of the
    /// sum of the squared raw components.
    pub fn magnitude(&self) -> (r: i64)
        requires
            bounded(*self, MAG_BOUND as int),
        ensures
            r == mag_fx(*self),
            0 <= r,
            r * r <= sq_sum(*self),
            sq_sum(*self) < (r + 1) * (r + 1),
    {
        proof {
            lemma_sq_sum_bounds(*self, MAG_BOUND as int);
            assert(0 <= self.x * self.x <= (MAG_BOUND as int) * (MAG_BOUND as int))
                by (nonlinear_arith)
                requires
                    -(MAG_BOUND as int) <= self.x <= MAG_BOUND as int,
            ;
            assert(0 <= self.y * self.y <= (MAG_BOUND as int) * (MAG_BOUND as int))
                by (nonlinear_arith)
                requires
                    -(MAG_BOUND as int) <= self.y <= MAG_BOUND as int,
            ;
            assert(0 <= self.z * self.z <= (MAG_BOUND as int) * (MAG_BOUND as int))
                by (nonlinear_arith)
                requires
                    -(MAG_BOUND as int) <= self.z <= MAG_BOUND as int,
            ;
        }
        let sx: u128 = ((self.x as i128) * (self.x as i128)) as u128;
        let sy: u128 = ((self.y as i128) * (self.y as i128)) as u128;
        let sz: u128 = ((self.z as i128) * (self.z as i128)) as u128;
        let s: u128 = sx + sy + sz;
        let r: u128 = isqrt_u128(s);
        proof {
            assert(is_sqrt_floor(s as int, r as int));
            lemma_sqrt_floor(sq_sum(*self), r as int);
            assert((r as int) * (r as int) <= 3 * ((MAG_BOUND as int) * (MAG_BOUND as int)));
            assert(r as int <= i64::MAX) by (nonlinear_arith)
                requires
                    0 <= r as int,
                    (r as int) * (r as int) <= 0x3000_0000_0000_0000_0000_0000_0000_0000,
            ;
        }
        r as i64
    }

    /// The unit vector along `self`: each component divided by the
    /// fixed-point magnitude.  Requires a nonzero vector; the result's
    /// components are bounded by `SCALE`.
    pub fn normalise(&self) -> (v: Self)
        requires
            bounded(*self, MAG_BOUND as int),
            1 <= sq_sum(*self),
        ensures
            v == norm_v(*self),
            v.x == div_fx(self.x as int, mag_fx(*self)),
            v.y == div_fx(self.y as int, mag_fx(*self)),
            v.z == div_fx(self.z as int, mag_fx(*self)),
            1 <= mag_fx(*self),
            bounded(v, SCALE as int),
    {
        let mag = self.magnitude();
        proof {
            lemma_component_le_mag(*self);
            lemma_norm_component_bounds(self.x as int, mag as int);
            lemma_norm_component_bounds(self.y as int, mag as int);
            lemma_norm_component_bounds(self.z as int, mag as int);
        }
        Self { x: fx_div(self.x, mag), y: fx_div(self.y, mag), z: fx_div(self.z, mag) }
    }
}

/// With both vectors bounded by `b`, the raw product sum of the dot product is
/// bounded by `3 * b * b`.
proof fn lemma_dot_sum_bound(a: Vec3, b: Vec3, bd: int)
    requires
        0 <= bd,
        bounded(a, bd),
        bounded(b, bd),
    ensures
        -(bd * bd) <= a.x * b.x <= bd * bd,
        -(bd * bd) <= a.y * b.y <= bd * bd,
        -(bd * bd) <= a.z * b.z <= bd * bd,
        -(3 * (bd * bd)) <= a.x * b.x + a.y * b.y + a.z * b.z <= 3 * (bd * bd),
{
    assert(-(bd * bd) <= a.x * b.x <= bd * bd) by (nonlinear_arith)
        requires
            -bd <= a.x <= bd,
            -bd <= b.x <= bd,
    ;
    assert(-(bd * bd) <= a.y * b.y <= bd * bd) by (nonlinear_arith)
        requires
            -bd <= a.y <= bd,
            -bd <= b.y <= bd,
    ;
    assert(-(bd * bd) <= a.z * b.z <= bd * bd) by (nonlinear_arith)
        requires
            -bd <= a.z <= bd,
            -bd <= b.z <= bd,
    ;
}

/// With all components bounded by `b`, the sum of squares is at most
/// `3 * b * b`.
pub proof fn lemma_sq_sum_bounds(v: Vec3, bd: int)
    requires
        0 <= bd,
        bounded(v, bd),
    ensures
        0 <= v.x * v.x <= bd * bd,
        0 <= v.y * v.y <= bd * bd,
        0 <= v.z * v.z <= bd * bd,
        0 <= sq_sum(v) <= 3 * (bd * bd),
{
    assert(0 <= v.x * v.x <= bd * bd) by (nonlinear_arith)
        requires
            -bd <= v.x <= bd,
    ;
    assert(0 <= v.y * v.y <= bd * bd) by (nonlinear_arith)
        requires
            -bd <= v.y <= bd,
    ;
    assert(0 <= v.z * v.z <= bd * bd) by (nonlinear_arith)
        requires
            -bd <= v.z <= bd,
    ;
}

/// The dot product is commutative.
pub proof fn lemma_dot_commutative(a: Vec3, b: Vec3)
    ensures
        dot_fx(a, b) == dot_fx(b, a),
{
    assert(a.x * b.x == b.x * a.x) by (nonlinear_arith);
    assert(a.y * b.y == b.y * a.y) by (nonlinear_arith);
    assert(a.z * b.z == b.z * a.z) by (nonlinear_arith);
}

/// The fixed-point form of `dot(v, v) == magnitude(v)^2`: the self-dot-product
/// is the rescaled raw square sum, and the magnitude is its rounded-down
/// square root.
pub proof fn lemma_dot_self_magnitude(v: Vec3)
    ensures
        dot_fx(v, v) == sq_sum(v) / (SCALE as int),
        mag_fx(v) * mag_fx(v) <= sq_sum(v),
        sq_sum(v) < (mag_fx(v) + 1) * (mag_fx(v) + 1),
        0 <= mag_fx(v),
{
    assert(0 <= v.x * v.x) by (nonlinear_arith);
    assert(0 <= v.y * v.y) by (nonlinear_arith);
    assert(0 <= v.z * v.z) by (nonlinear_arith);
    lemma_sqrt_floor_exists(sq_sum(v));
}

/// A vector of exactly unit magnitude normalises to itself, so its
/// normalisation has exactly unit magnitude again.
pub proof fn lemma_normalise_unit_identity(v: Vec3)
    requires
        mag_fx(v) == SCALE,
    ensures
        norm_v(v) == v,
        mag_fx(norm_v(v)) == SCALE,
{
    let s = SCALE as int;
    assert(div_fx(v.x as int, s) == v.x) by {
        assert(v.x * s == s * (v.x as int)) by (nonlinear_arith);
        vstd::arithmetic::div_mod::lemma_div_multiples_vanish(v.x as int, s);
    }
    assert(div_fx(v.y as int, s) == v.y) by {
        assert(v.y * s == s * (v.y as int)) by (nonlinear_arith);
        vstd::arithmetic::div_mod::lemma_div_multiples_vanish(v.y as int, s);
    }
    assert(div_fx(v.z as int, s) == v.z) by {
        assert(v.z * s == s * (v.z as int)) by (nonlinear_arith);
        vstd::arithmetic::div_mod::lemma_div_multiples_vanish(v.z as int, s);
    }
    assert(norm_v(v) == v);
}

/// Normalisation is accurate for every vector of at least unit length: the
/// result's fixed-point magnitude lands within four raw units of one unit.
/// (Below one unit the floored divisor is too coarse for such a bound, which
/// is why rays exclude shorter directions up front.)
pub proof fn lemma_normalise_near_unit(v: Vec3)
    requires
        (SCALE as int) * (SCALE as int) <= sq_sum(v),
    ensures
        SCALE - 4 <= mag_fx(norm_v(v)) <= SCALE + 4,
{
    let s = SCALE as int;
    let q = sq_sum(v);
    let m = mag_fx(v);
    lemma_sqrt_floor_exists(q);
    assert(s <= m) by (nonlinear_arith)
        requires
            0 <= m,
            s * s <= q,
            q < (m + 1) * (m + 1),
            0 < s,
    ;
    lemma_component_le_mag(v);
    lemma_norm_component_bounds(v.x as int, m);
    lemma_norm_component_bounds(v.y as int, m);
    lemma_norm_component_bounds(v.z as int, m);
    let nx = div_fx(v.x as int, m);
    let ny = div_fx(v.y as int, m);
    let nz = div_fx(v.z as int, m);
    let rx = (v.x * s) % m;
    let ry = (v.y * s) % m;
    let rz = (v.z * s) % m;
    lemma_fundamental_div_mod(v.x * s, m);
    lemma_fundamental_div_mod(v.y * s, m);
    lemma_fundamental_div_mod(v.z * s, m);
    let nn = sq_sum(norm_v(v));
    let tt = nx * rx + ny * ry + nz * rz;
    let rr = rx * rx + ry * ry + rz * rz;
    assert(nn == nx * nx + ny * ny + nz * nz);
    // the exact rescaled square sum, split by the division remainders
    assert((v.x * s) * (v.x * s) == m * m * (nx * nx) + 2 * (m * (nx * rx)) + rx * rx)
        by (nonlinear_arith)
        requires
            v.x * s == m * nx + rx,
    ;
    assert((v.y * s) * (v.y * s) == m * m * (ny * ny) + 2 * (m * (ny * ry)) + ry * ry)
        by (nonlinear_arith)
        requires
            v.y * s == m * ny + ry,
    ;
    assert((v.z * s) * (v.z * s) == m * m * (nz * nz) + 2 * (m * (nz * rz)) + rz * rz)
        by (nonlinear_arith)
        requires
            v.z * s == m * nz + rz,
    ;
    assert((v.x * s) * (v.x * s) == (v.x * v.x) * (s * s)) by (nonlinear_arith);
    assert((v.y * s) * (v.y * s) == (v.y * v.y) * (s * s)) by (nonlinear_arith);
    assert((v.z * s) * (v.z * s) == (v.z * v.z) * (s * s)) by (nonlinear_arith);
    assert(q * (s * s) == (v.x * v.x) * (s * s) + (v.y * v.y) * (s * s) + (v.z * v.z) * (s * s))
        by (nonlinear_arith)
        requires
            q == v.x * v.x + v.y * v.y + v.z * v.z,
    ;
    assert(m * m * (nx * nx) + m * m * (ny * ny) + m * m * (nz * nz) == (m * m) * nn)
        by (nonlinear_arith)
        requires
            nn == nx * nx + ny * ny + nz * nz,
    ;
    assert(m * (nx * rx) + m * (ny * ry) + m * (nz * rz) == m * tt) by (nonlinear_arith)
        requires
            tt == nx * rx + ny * ry + nz * rz,
    ;
    assert(q * (s * s) == (m * m) * nn + 2 * (m * tt) + rr);
    // remainder and cross-term bounds
    assert(0 <= rx * rx <= m * m) by (nonlinear_arith)
        requires
            0 <= rx < m,
    ;
    assert(0 <= ry * ry <= m * m) by (nonlinear_arith)
        requires
            0 <= ry < m,
    ;
    assert(0 <= rz * rz <= m * m) by (nonlinear_arith)
        requires
            0 <= rz < m,
    ;
    assert(-(s * m) <= nx * rx <= s * m) by (nonlinear_arith)
        requires
            -s <= nx <= s,
            0 <= rx < m,
            1 <= m,
    ;
    assert(-(s * m) <= ny * ry <= s * m) by (nonlinear_arith)
        requires
            -s <= ny <= s,
            0 <= ry < m,
            1 <= m,
    ;
    assert(-(s * m) <= nz * rz <= s * m) by (nonlinear_arith)
        requires
            -s <= nz <= s,
            0 <= rz < m,
            1 <= m,
    ;
    // squeeze the rescaled square sum between the unit bands
    assert((m * m) * nn >= (m * m) * (s * s - 6 * s - 3)) by (nonlinear_arith)
        requires
            q * (s * s) == (m * m) * nn + 2 * (m * tt) + rr,
            m * m <= q,
            -(3 * (s * m)) <= tt <= 3 * (s * m),
            0 <= rr <= 3 * (m * m),
            0 < s <= m,
    ;
    assert((m * m) * nn <= (m * m) * (s * s + 8 * s)) by (nonlinear_arith)
        requires
            q * (s * s) == (m * m) * nn + 2 * (m * tt) + rr,
            q < (m + 1) * (m + 1),
            -(3 * (s * m)) <= tt <= 3 * (s * m),
            0 <= rr,
            0 < s <= m,
    ;
    assert(s * s - 6 * s - 3 <= nn <= s * s + 8 * s) by (nonlinear_arith)
        requires
            (m * m) * (s * s - 6 * s - 3) <= (m * m) * nn,
            (m * m) * nn <= (m * m) * (s * s + 8 * s),
            1 <= m,
    ;
    lemma_sqrt_floor_exists(nn);
    let mn = mag_fx(norm_v(v));
    assert(s - 4 <= mn) by (nonlinear_arith)
        requires
            0 <= mn,
            nn < (mn + 1) * (mn + 1),
            s * s - 6 * s - 3 <= nn,
            s == 65536,
    ;
    assert(mn <= s + 4) by (nonlinear_arith)
        requires
            0 <= mn,
            mn * mn <= nn,
            nn <= s * s + 8 * s,
            s == 65536,
    ;
}

/// With `a` bounded by `ba` and `b` bounded by `bb`, the fixed-point dot
/// product lies between the rescaled product bounds.
pub proof fn lemma_dot_fx_bound(a: Vec3, b: Vec3, ba: int, bb: int)
    requires
        0 <= ba,
        0 <= bb,
        bounded(a, ba),
        bounded(b, bb),
    ensures
        -(3 * (ba * bb)) <= a.x * b.x + a.y * b.y + a.z * b.z <= 3 * (ba * bb),
        (-(3 * (ba * bb))) / (SCALE as int) <= dot_fx(a, b) <= (3 * (ba * bb)) / (SCALE as int),
{
    assert(-(ba * bb) <= a.x * b.x <= ba * bb) by (nonlinear_arith)
        requires
            -ba <= a.x <= ba,
            -bb <= b.x <= bb,
    ;
    assert(-(ba * bb) <= a.y * b.y <= ba * bb) by (nonlinear_arith)
        requires
            -ba <= a.y <= ba,
            -bb <= b.y <= bb,
    ;
    assert(-(ba * bb) <= a.z * b.z <= ba * bb) by (nonlinear_arith)
        requires
            -ba <= a.z <= ba,
            -bb <= b.z <= bb,
    ;
    lemma_div_bounds(
        a.x * b.x + a.y * b.y + a.z * b.z,
        SCALE as int,
        -(3 * (ba * bb)),
        3 * (ba * bb),
    );
}

/// No component of a vector exceeds the vector's fixed-point magnitude in
/// absolute value.
pub proof fn lemma_component_le_mag(v: Vec3)
    requires
        1 <= sq_sum(v),
    ensures
        1 <= mag_fx(v),
        -mag_fx(v) <= v.x <= mag_fx(v),
        -mag_fx(v) <= v.y <= mag_fx(v),
        -mag_fx(v) <= v.z <= mag_fx(v),
{
    let m = mag_fx(v);
    assert(is_sqrt_floor(sq_sum(v), m)) by {
        lemma_sqrt_floor_exists(sq_sum(v));
    }
    assert(1 <= m) by (nonlinear_arith)
        requires
            0 <= m,
            1 <= sq_sum(v),
            sq_sum(v) < (m + 1) * (m + 1),
    ;
    lemma_abs_le_mag_one(v.x as int, v.y as int, v.z as int, m);
    lemma_abs_le_mag_one(v.y as int, v.x as int, v.z as int, m);
    lemma_abs_le_mag_one(v.z as int, v.x as int, v.y as int, m);
}

/// Any nonnegative `n` has a rounded-down square root.
pub proof fn lemma_sqrt_floor_exists(n: int)
    requires
        0 <= n,
    ensures
        is_sqrt_floor(n, sqrt_floor(n)),
    decreases n,
{
    if n == 0 {
        assert(is_sqrt_floor(0, 0));
    } else {
        lemma_sqrt_floor_exists(n - 1);
        let r = sqrt_floor(n - 1);
        if (r + 1) * (r + 1) <= n {
            assert(is_sqrt_floor(n, r + 1)) by (nonlinear_arith)
                requires
                    is_sqrt_floor(n - 1, r),
                    (r + 1) * (r + 1) <= n,
            ;
        } else {
            assert(is_sqrt_floor(n, r));
        }
    }
    assert(exists|s: int| is_sqrt_floor(n, s));
    assert(is_sqrt_floor(n, sqrt_floor(n)));
}

/// Helper: if `a * a` is one summand of a sum of three squares below
/// `(m + 1) * (m + 1)`, then `|a| <= m`.
proof fn lemma_abs_le_mag_one(a: int, b: int, c: int, m: int)
    requires
        0 <= m,
        a * a + b * b + c * c < (m + 1) * (m + 1),
    ensures
        -m <= a <= m,
{
    assert(-m <= a <= m) by (nonlinear_arith)
        requires
            0 <= m,
            a * a + b * b + c * c < (m + 1) * (m + 1),
    ;
}

/// A component divided by a magnitude at least as large stays within
/// `[-SCALE, SCALE]`.
pub proof fn lemma_norm_component_bounds(c: int, m: int)
    requires
        1 <= m,
        -m <= c <= m,
    ensures
        -(SCALE as int) <= div_fx(c, m) <= SCALE as int,
{
    assert(-m * (SCALE as int) <= c * (SCALE as int) <= m * (SCALE as int)) by (nonlinear_arith)
        requires
            -m <= c <= m,
            0 < SCALE as int,
    ;
    lemma_div_bounds(c * (SCALE as int), m, -m * (SCALE as int), m * (SCALE as int));
    assert((m * (SCALE as int)) / m == SCALE as int) by (nonlinear_arith)
        requires
            1 <= m,
    ;
    assert((-m * (SCALE as int)) / m == -(SCALE as int)) by (nonlinear_arith)
        requires
            1 <= m,
    ;
}

} // verus!
