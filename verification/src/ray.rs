//! Rays: an origin and a normalized direction.

use vstd::prelude::*;
use vstd::arithmetic::div_mod::{lemma_div_is_ordered, lemma_div_multiples_vanish};
use crate::fixed::{div_fx, lemma_div_bounds, mul_fx, SCALE};
use crate::point::Point3;
use crate::vec::{bounded, dot_fx, mag_fx, sq_sum, Vec3, MAG_BOUND};

verus! {

/// A half-line `origin + t * direction`.  The one constructor normalizes the
/// direction, so a stored direction always satisfies `Ray::wf`.
#[derive(Debug, Clone, Copy, PartialEq, Eq, Structural)]
pub struct Ray {
    pub direction: Vec3,
    pub origin: Point3,
}

impl Ray {
    /// The stored direction is a unit vector up to the representation's
    /// rounding: components bounded by one unit, fixed-point magnitude within
    /// four raw units of `SCALE`, and a solidly positive self-dot-product.
    /// All three facts are established by normalization at construction.
    pub open spec fn wf(self) -> bool {
        &&& bounded(self.direction, SCALE as int)
        &&& SCALE - 4 <= mag_fx(self.direction) <= SCALE + 4
        &&& 0x4000 <= dot_fx(self.direction, self.direction)
    }

    /// This constructor should be used: it makes sure the direction is
    /// always normalised.  Directions shorter than one unit are rejected by
    /// the precondition — failing fast at construction rather than storing a
    /// direction the coarse floored divisor would leave far from unit length.
    pub fn new(origin: Point3, direction: Vec3) -> (r: Self)
        requires
            bounded(direction, MAG_BOUND as int),
            (SCALE as int) * (SCALE as int) <= sq_sum(direction),
        ensures
            r.origin == origin,
            r.direction.x == div_fx(direction.x as int, mag_fx(direction)),
            r.direction.y == div_fx(direction.y as int, mag_fx(direction)),
            r.direction.z == div_fx(direction.z as int, mag_fx(direction)),
            r.wf(),
            SCALE - 4 <= mag_fx(r.direction) <= SCALE + 4,
            1 <= dot_fx(r.direction, direction),
    {
        proof {
            assert(1 <= sq_sum(direction)) by (nonlinear_arith)
                requires
                    (SCALE as int) * (SCALE as int) <= sq_sum(direction),
            ;
        }
        let d = direction.normalise();
        proof {
            lemma_normalised_self_dot(direction, d);
            lemma_normalised_same_direction(direction, d);
            crate::vec::lemma_normalise_near_unit(direction);
        }
        Self { origin, direction: d }
    }

    /// The point `origin + t * direction`, as a spec-level value (meaningful
    /// when the sums fit in `i64`).
    pub open spec fn at_v(self, t: i64) -> Point3 {
        Vec3 {
            x: (self.origin.x + mul_fx(t as int, self.direction.x as int)) as i64,
            y: (self.origin.y + mul_fx(t as int, self.direction.y as int)) as i64,
            z: (self.origin.z + mul_fx(t as int, self.direction.z as int)) as i64,
        }
    }

    /// The point reached after parameter `t`: `origin + t * direction`,
    /// component-wise in fixed point.
    pub fn at(&self, t: i64) -> (p: Point3)
        requires
            bounded(self.direction, SCALE as int),
            i64::MIN < t,
            i64::MIN <= self.origin.x + mul_fx(t as int, self.direction.x as int) <= i64::MAX,
            i64::MIN <= self.origin.y + mul_fx(t as int, self.direction.y as int) <= i64::MAX,
            i64::MIN <= self.origin.z + mul_fx(t as int, self.direction.z as int) <= i64::MAX,
        ensures
            p == self.at_v(t),
            p.x == self.origin.x + mul_fx(t as int, self.direction.x as int),
            p.y == self.origin.y + mul_fx(t as int, self.direction.y as int),
            p.z == self.origin.z + mul_fx(t as int, self.direction.z as int),
    {
        proof {
            lemma_scale_unit_bound(t as int, self.direction.x as int);
            lemma_scale_unit_bound(t as int, self.direction.y as int);
            lemma_scale_unit_bound(t as int, self.direction.z as int);
        }
        let d = self.direction.scale(t);
        self.origin.add(d)
    }
}

/// Scaling a scalar bounded by one unit cannot grow it: `|mul_fx(t, d)| <= |t|`
/// whenever `|d| <= SCALE`.
pub proof fn lemma_scale_unit_bound(t: int, d: int)
    requires
        -(SCALE as int) <= d <= SCALE as int,
    ensures
        t >= 0 ==> -t <= mul_fx(t, d) <= t,
        t < 0 ==> t <= mul_fx(t, d) <= -t,
{
    let s = SCALE as int;
    let a = if t >= 0 { t } else { -t };
    assert(-(a * s) <= t * d <= a * s) by (nonlinear_arith)
        requires
            -s <= d <= s,
            a == (if t >= 0 { t } else { -t }),
    ;
    lemma_div_bounds(t * d, s, -(a * s), a * s);
    assert((s * a) / s == a) by {
        lemma_div_multiples_vanish(a, s);
    }
    assert((s * -a) / s == -a) by {
        lemma_div_multiples_vanish(-a, s);
    }
    assert(a * s == s * a) by (nonlinear_arith);
    assert(-(a * s) == s * -a) by (nonlinear_arith);
}

/// A scalar at least half the magnitude keeps, after normalization, a square
/// of at least a quarter unit.
proof fn lemma_big_component(c: int, m: int)
    requires
        1 <= m,
        m * m <= 4 * (c * c),
    ensures
        0x4000_0000 <= div_fx(c, m) * div_fx(c, m),
{
    let s = SCALE as int;
    let h = s / 2;
    let q = div_fx(c, m);
    if c >= 0 {
        assert(m * h <= c * s) by (nonlinear_arith)
            requires
                0 <= c,
                1 <= m,
                m * m <= 4 * (c * c),
                h == 32768,
                s == 65536,
        ;
        lemma_div_is_ordered(m * h, c * s, m);
        assert((m * h) / m == h) by {
            lemma_div_multiples_vanish(h, m);
        }
        assert(h <= q);
        assert(0x4000_0000 <= q * q) by (nonlinear_arith)
            requires
                32768 <= q,
        ;
    } else {
        assert(c * s <= m * -h) by (nonlinear_arith)
            requires
                c < 0,
                1 <= m,
                m * m <= 4 * (c * c),
                h == 32768,
                s == 65536,
        ;
        lemma_div_is_ordered(c * s, m * -h, m);
        assert((m * -h) / m == -h) by {
            lemma_div_multiples_vanish(-h, m);
        }
        assert(q <= -h);
        assert(0x4000_0000 <= q * q) by (nonlinear_arith)
            requires
                q <= -32768,
        ;
    }
}

/// One summand of the product of a vector with its normalisation, scaled by
/// the magnitude: `m * (q * c) >= c * c * SCALE - m * (m - 1)` for the
/// normalised component `q`.
proof fn lemma_norm_dot_term(c: int, m: int)
    requires
        1 <= m,
        -m <= c <= m,
    ensures
        m * (div_fx(c, m) * c) >= c * c * (SCALE as int) - m * (m - 1),
{
    let s = SCALE as int;
    let q = div_fx(c, m);
    let r = (c * s) % m;
    vstd::arithmetic::div_mod::lemma_fundamental_div_mod(c * s, m);
    assert(c * s == m * q + r);
    assert(m * (q * c) == c * (c * s) - c * r) by (nonlinear_arith)
        requires
            c * s == m * q + r,
    ;
    assert(c * (c * s) == c * c * s) by (nonlinear_arith);
    assert(c * r <= m * (m - 1)) by (nonlinear_arith)
        requires
            -m <= c <= m,
            0 <= r < m,
    ;
}

/// Normalisation keeps the direction: the dot product of a nonzero vector
/// with its normalisation is at least one whole unit, hence positive.
pub proof fn lemma_normalised_same_direction(v: Vec3, n: Vec3)
    requires
        1 <= sq_sum(v),
        n.x == div_fx(v.x as int, mag_fx(v)),
        n.y == div_fx(v.y as int, mag_fx(v)),
        n.z == div_fx(v.z as int, mag_fx(v)),
    ensures
        1 <= dot_fx(n, v),
{
    let s = SCALE as int;
    let m = mag_fx(v);
    crate::vec::lemma_component_le_mag(v);
    crate::vec::lemma_sqrt_floor_exists(sq_sum(v));
    lemma_norm_dot_term(v.x as int, m);
    lemma_norm_dot_term(v.y as int, m);
    lemma_norm_dot_term(v.z as int, m);
    let t = n.x * v.x + n.y * v.y + n.z * v.z;
    assert(m * t == m * (n.x * v.x) + m * (n.y * v.y) + m * (n.z * v.z)) by (nonlinear_arith)
        requires
            t == n.x * v.x + n.y * v.y + n.z * v.z,
    ;
    assert(m * t >= sq_sum(v) * s - 3 * (m * (m - 1)));
    assert(sq_sum(v) * s >= (m * m) * s) by (nonlinear_arith)
        requires
            m * m <= sq_sum(v),
            0 < s,
    ;
    assert(m * t >= m * (m * s - 3 * (m - 1))) by (nonlinear_arith)
        requires
            m * t >= (m * m) * s - 3 * (m * (m - 1)),
    ;
    assert(t >= m * s - 3 * (m - 1)) by (nonlinear_arith)
        requires
            1 <= m,
            m * t >= m * (m * s - 3 * (m - 1)),
    ;
    assert(t >= s) by (nonlinear_arith)
        requires
            1 <= m,
            s == 65536,
            t >= m * s - 3 * (m - 1),
    ;
    lemma_div_is_ordered(s, t, s);
    lemma_div_multiples_vanish(1, s);
}

/// Normalization of a nonzero vector yields a direction whose fixed-point
/// self-dot-product is at least a quarter unit: the direction cannot collapse
/// toward zero.
pub proof fn lemma_normalised_self_dot(v: Vec3, n: Vec3)
    requires
        1 <= sq_sum(v),
        n.x == div_fx(v.x as int, mag_fx(v)),
        n.y == div_fx(v.y as int, mag_fx(v)),
        n.z == div_fx(v.z as int, mag_fx(v)),
    ensures
        0x4000 <= dot_fx(n, n),
{
    let s = SCALE as int;
    let m = mag_fx(v);
    crate::vec::lemma_component_le_mag(v);
    crate::vec::lemma_sqrt_floor_exists(sq_sum(v));
    assert(m * m <= sq_sum(v));
    assert(
        m * m <= 4 * (v.x * v.x) || m * m <= 4 * (v.y * v.y) || m * m <= 4 * (v.z * v.z)
    ) by (nonlinear_arith)
        requires
            m * m <= v.x * v.x + v.y * v.y + v.z * v.z,
    ;
    assert(0 <= n.x * n.x) by (nonlinear_arith);
    assert(0 <= n.y * n.y) by (nonlinear_arith);
    assert(0 <= n.z * n.z) by (nonlinear_arith);
    if m * m <= 4 * (v.x * v.x) {
        lemma_big_component(v.x as int, m);
    } else if m * m <= 4 * (v.y * v.y) {
        lemma_big_component(v.y as int, m);
    } else {
        lemma_big_component(v.z as int, m);
    }
    assert(0x4000_0000 <= n.x * n.x + n.y * n.y + n.z * n.z);
    lemma_div_is_ordered(0x4000_0000, n.x * n.x + n.y * n.y + n.z * n.z, s);
}

} // verus!
