//! Spheres and the quadratic solver used for their intersection.

use vstd::prelude::*;
use vstd::arithmetic::div_mod::{lemma_div_is_ordered, lemma_div_multiples_vanish};
use crate::fixed::{
    div_fx, fx_div, fx_mul, fx_sqrt, lemma_div_add_ub, lemma_div_bounds, lemma_div_four,
    lemma_div_shrinks, lemma_mul_fx_bound, mul_fx, sqrt_fx, SCALE,
};
use crate::hit::Hit;
use crate::point::Point3;
use crate::ray::{lemma_scale_unit_bound, Ray};
use crate::traits::{Intersectable, WORLD_BOUND};
use crate::vec::{
    bounded, diff_v, dot_fx, lemma_dot_fx_bound, lemma_sq_sum_bounds, mag_fx, norm_v, sq_sum,
    Vec3,
};

verus! {

/// Largest leading coefficient the solver accepts (four square units).
pub const QUAD_A_MAX: i64 = 0x4_0000;

/// Largest linear-coefficient magnitude the solver accepts.
pub const QUAD_B_MAX: i64 = 0x70_0000_0000;

/// Largest constant-coefficient magnitude the solver accepts.
pub const QUAD_C_MAX: i64 = 0x400_0000_0000_0000;

/// Every root the solver reports lies within this bound.
pub const ROOT_BOUND: i64 = 0x200_0000_0000_0000;

/// The fixed-point discriminant of `a*x^2 + b*x + c`.
pub open spec fn disc_of(a: int, b: int, c: int) -> int {
    mul_fx(b, b) - 4 * mul_fx(a, c)
}

/// The larger (far) root `(h + sqrt(d)) / a`, all in fixed point.
pub open spec fn root_far(h: int, a: int, d: int) -> int {
    div_fx(h + sqrt_fx(d), a)
}

/// The smaller (near) root `(h - sqrt(d)) / a`, all in fixed point.
pub open spec fn root_near(h: int, a: int, d: int) -> int {
    div_fx(h - sqrt_fx(d), a)
}

/// The outcome of solving a quadratic: the discriminant, and the real roots
/// if there are any — ordered larger-then-smaller (far hit first), a contract
/// callers must respect.
#[derive(Debug)]
pub struct Quadratic {
    pub discriminant: i64,
    pub solutions: Option<Vec<i64>>,
}

impl Quadratic {
    /// Solve `a*x^2 + b*x + c == 0` from the standard-form coefficients.
    /// A negative discriminant reports no solutions; a zero discriminant one
    /// root `-b / 2a`; a positive one both roots, larger first.
    pub fn new(a: i64, b: i64, c: i64) -> (q: Self)
        requires
            1 <= a <= QUAD_A_MAX,
            -QUAD_B_MAX <= b <= QUAD_B_MAX,
            -QUAD_C_MAX <= c <= QUAD_C_MAX,
        ensures
            q.discriminant == disc_of(a as int, b as int, c as int),
            (q.solutions is None) <==> disc_of(a as int, b as int, c as int) < 0,
            disc_of(a as int, b as int, c as int) == 0 ==> (q.solutions matches Some(v)
                && v@.len() == 1 && v@[0] == div_fx(-(b as int), 2 * (a as int))),
            disc_of(a as int, b as int, c as int) > 0 ==> (q.solutions matches Some(v)
                && v@.len() == 2
                && v@[0] == root_far(-(b as int), 2 * (a as int), disc_of(a as int, b as int, c as int))
                && v@[1] == root_near(-(b as int), 2 * (a as int), disc_of(a as int, b as int, c as int))
                && v@[1] <= v@[0]),
    {
        proof {
            lemma_mul_fx_bound(b as int, b as int, QUAD_B_MAX as int, QUAD_B_MAX as int);
            lemma_mul_fx_bound(a as int, c as int, QUAD_A_MAX as int, QUAD_C_MAX as int);
        }
        let bb = fx_mul(b, b);
        let ac = fx_mul(a, c);
        let discriminant = bb - 4 * ac;
        if discriminant < 0 {
            Self { discriminant, solutions: None }
        } else if discriminant == 0 {
            proof {
                lemma_div_shrinks(
                    -(b as int) * (SCALE as int),
                    2 * (a as int),
                    (QUAD_B_MAX as int) * (SCALE as int),
                );
            }
            let t = fx_div(-b, 2 * a);
            Self { discriminant, solutions: Some(vec![t]) }
        } else {
            let sd = fx_sqrt(discriminant);
            proof {
                lemma_sqrt_disc_bound(discriminant as int, sd as int);
                lemma_div_shrinks(
                    (-(b as int) + sd) * (SCALE as int),
                    2 * (a as int),
                    (ROOT_BOUND as int) - 1,
                );
                lemma_div_shrinks(
                    (-(b as int) - sd) * (SCALE as int),
                    2 * (a as int),
                    (ROOT_BOUND as int) - 1,
                );
                lemma_div_is_ordered(
                    (-(b as int) - sd) * (SCALE as int),
                    (-(b as int) + sd) * (SCALE as int),
                    2 * (a as int),
                );
            }
            let t0 = fx_div(-b + sd, 2 * a);
            let t1 = fx_div(-b - sd, 2 * a);
            Self { discriminant, solutions: Some(vec![t0, t1]) }
        }
    }

    /// Solve from the half-coefficient form `a*x^2 - 2*h*x + c == 0` with a
    /// precomputed discriminant `h^2 - a*c`.  A negative discriminant reports
    /// no solutions; a zero one the root `h / a`; a positive one both roots
    /// `(h +- sqrt(d)) / a`, larger first.
    pub fn new_with_discriminant(a: i64, h: i64, discriminant: i64) -> (q: Self)
        requires
            1 <= a <= QUAD_A_MAX,
            -QUAD_B_MAX <= h <= QUAD_B_MAX,
        ensures
            q.discriminant == discriminant,
            (q.solutions is None) <==> discriminant < 0,
            discriminant == 0 ==> (q.solutions matches Some(v)
                && v@.len() == 1 && v@[0] == div_fx(h as int, a as int)),
            discriminant > 0 ==> (q.solutions matches Some(v)
                && v@.len() == 2
                && v@[0] == root_far(h as int, a as int, discriminant as int)
                && v@[1] == root_near(h as int, a as int, discriminant as int)
                && v@[1] <= v@[0]),
            q.solutions matches Some(v) ==> forall|i: int|
                0 <= i < v@.len() ==> -ROOT_BOUND <= #[trigger] v@[i] <= ROOT_BOUND,
    {
        if discriminant < 0 {
            Self { discriminant, solutions: None }
        } else if discriminant == 0 {
            proof {
                lemma_div_shrinks(
                    (h as int) * (SCALE as int),
                    a as int,
                    (QUAD_B_MAX as int) * (SCALE as int),
                );
            }
            let t = fx_div(h, a);
            Self { discriminant, solutions: Some(vec![t]) }
        } else {
            let sd = fx_sqrt(discriminant);
            proof {
                lemma_sqrt_disc_bound(discriminant as int, sd as int);
                lemma_div_shrinks(
                    ((h as int) + sd) * (SCALE as int),
                    a as int,
                    (ROOT_BOUND as int) - 1,
                );
                lemma_div_shrinks(
                    ((h as int) - sd) * (SCALE as int),
                    a as int,
                    (ROOT_BOUND as int) - 1,
                );
                lemma_div_is_ordered(
                    ((h as int) - sd) * (SCALE as int),
                    ((h as int) + sd) * (SCALE as int),
                    a as int,
                );
            }
            let t0 = fx_div(h + sd, a);
            let t1 = fx_div(h - sd, a);
            Self { discriminant, solutions: Some(vec![t0, t1]) }
        }
    }
}

/// A fixed-point square root of an `i64` discriminant stays below `2^40`.
proof fn lemma_sqrt_disc_bound(d: int, sd: int)
    requires
        0 <= sd,
        sd * sd <= d * (SCALE as int),
        d <= i64::MAX,
    ensures
        sd < 0x100_0000_0000,
{
    assert(sd < 0x100_0000_0000) by (nonlinear_arith)
        requires
            0 <= sd,
            sd * sd <= d * 65536,
            d <= 0x7fff_ffff_ffff_ffff,
    ;
}

/// A scene sphere: a center and a positive radius, immutable during
/// rendering.
#[derive(Debug, Clone, Copy, PartialEq, Eq, Structural)]
pub struct Sphere {
    pub origin: Point3,
    pub radius: i64,
}

/// The vector from the ray's origin to the sphere's center.
pub open spec fn center_offset(s: Sphere, r: Ray) -> Vec3 {
    diff_v(s.origin, r.origin)
}

/// Standard-form leading coefficient: `d . d`.
pub open spec fn std_a(r: Ray) -> int {
    dot_fx(r.direction, r.direction)
}

/// Standard-form linear coefficient: `-2 * d . (C - Q)`.
pub open spec fn std_b(s: Sphere, r: Ray) -> int {
    -2 * dot_fx(r.direction, center_offset(s, r))
}

/// Standard-form constant coefficient: `|C - Q|^2 - r^2`.
pub open spec fn std_c(s: Sphere, r: Ray) -> int {
    dot_fx(center_offset(s, r), center_offset(s, r)) - mul_fx(s.radius as int, s.radius as int)
}

/// The discriminant the existence probe tests: the standard-form one.
pub open spec fn probe_disc(s: Sphere, r: Ray) -> int {
    disc_of(std_a(r), std_b(s, r), std_c(s, r))
}

/// Half-coefficient leading term: the squared magnitude of the direction.
pub open spec fn half_a(r: Ray) -> int {
    mul_fx(mag_fx(r.direction), mag_fx(r.direction))
}

/// Half-coefficient linear term: `h = d . (C - Q)`.
pub open spec fn half_h(s: Sphere, r: Ray) -> int {
    dot_fx(r.direction, center_offset(s, r))
}

/// Half-coefficient constant term: `|C - Q|^2 - r^2` via squared magnitudes.
pub open spec fn half_c(s: Sphere, r: Ray) -> int {
    mul_fx(mag_fx(center_offset(s, r)), mag_fx(center_offset(s, r)))
        - mul_fx(s.radius as int, s.radius as int)
}

/// The half-form discriminant `h^2 - a*c`, which decides the hit count.
pub open spec fn half_disc(s: Sphere, r: Ray) -> int {
    mul_fx(half_h(s, r), half_h(s, r)) - mul_fx(half_a(r), half_c(s, r))
}

/// The hit at parameter `t`: the reached point, and the outward unit normal
/// from the center (the zero vector in the degenerate case where rounding
/// lands the point exactly on the center).
pub open spec fn sphere_hit(s: Sphere, r: Ray, t: i64) -> Hit {
    let p = r.at_v(t);
    let d = diff_v(p, s.origin);
    Hit {
        t,
        p,
        normal: if 1 <= sq_sum(d) {
            norm_v(d)
        } else {
            Vec3 { x: 0, y: 0, z: 0 }
        },
    }
}

/// The full hit list: none iff the half-form discriminant is negative; one
/// hit at the root `h/a` when it is zero; two hits, far first, when it is
/// positive.
pub open spec fn sphere_hits(s: Sphere, r: Ray) -> Option<Seq<Hit>> {
    let d = half_disc(s, r);
    if d < 0 {
        None
    } else if d == 0 {
        Some(seq![sphere_hit(s, r, div_fx(half_h(s, r), half_a(r)) as i64)])
    } else {
        Some(
            seq![
                sphere_hit(s, r, root_far(half_h(s, r), half_a(r), d) as i64),
                sphere_hit(s, r, root_near(half_h(s, r), half_a(r), d) as i64),
            ],
        )
    }
}

impl Sphere {
    /// Standard-form quadratic for the intersection of `r` with this sphere.
    pub fn get_quadratic(&self, r: &Ray) -> (q: Quadratic)
        requires
            self.wf(),
            r.wf(),
            bounded(r.origin, WORLD_BOUND as int),
        ensures
            q.discriminant == probe_disc(*self, *r),
            (q.solutions is None) <==> probe_disc(*self, *r) < 0,
            probe_disc(*self, *r) == 0 ==> (q.solutions matches Some(v) && v@.len() == 1
                && v@[0] == div_fx(-std_b(*self, *r), 2 * std_a(*r))),
            probe_disc(*self, *r) > 0 ==> (q.solutions matches Some(v) && v@.len() == 2
                && v@[0] == root_far(-std_b(*self, *r), 2 * std_a(*r), probe_disc(*self, *r))
                && v@[1] == root_near(-std_b(*self, *r), 2 * std_a(*r), probe_disc(*self, *r))
                && v@[1] <= v@[0]),
    {
        let cq = self.origin.subtract(r.origin);
        let a = r.direction.dot(&r.direction);
        let hd = r.direction.dot(&cq);
        proof {
            lemma_dot_fx_bound(r.direction, r.direction, SCALE as int, SCALE as int);
            lemma_dot_fx_bound(r.direction, cq, SCALE as int, 2 * (WORLD_BOUND as int));
            lemma_dot_fx_bound(cq, cq, 2 * (WORLD_BOUND as int), 2 * (WORLD_BOUND as int));
            lemma_mul_fx_bound(
                self.radius as int,
                self.radius as int,
                WORLD_BOUND as int,
                WORLD_BOUND as int,
            );
            assert(-0x30_0000_0000 <= hd <= 0x30_0000_0000);
        }
        let b = -(2 * hd);
        let c = cq.dot(&cq) - fx_mul(self.radius, self.radius);
        Quadratic::new(a, b, c)
    }

    /// Half-coefficient quadratic for the same intersection, computed through
    /// the squared magnitudes.
    pub fn get_quadratic_v2(&self, r: &Ray) -> (q: Quadratic)
        requires
            self.wf(),
            r.wf(),
            bounded(r.origin, WORLD_BOUND as int),
        ensures
            q.discriminant == half_disc(*self, *r),
            (q.solutions is None) <==> half_disc(*self, *r) < 0,
            half_disc(*self, *r) == 0 ==> (q.solutions matches Some(v)
                && v@.len() == 1 && v@[0] == div_fx(half_h(*self, *r), half_a(*r))),
            half_disc(*self, *r) > 0 ==> (q.solutions matches Some(v)
                && v@.len() == 2
                && v@[0] == root_far(half_h(*self, *r), half_a(*r), half_disc(*self, *r))
                && v@[1] == root_near(half_h(*self, *r), half_a(*r), half_disc(*self, *r))
                && v@[1] <= v@[0]),
            q.solutions matches Some(v) ==> forall|i: int|
                0 <= i < v@.len() ==> -ROOT_BOUND <= #[trigger] v@[i] <= ROOT_BOUND,
    {
        let cq = self.origin.subtract(r.origin);
        let m = r.direction.magnitude();
        proof {
            lemma_sq_sum_bounds(r.direction, SCALE as int);
            assert(m <= 2 * (SCALE as int)) by (nonlinear_arith)
                requires
                    0 <= m,
                    (m as int) * (m as int) <= 3 * ((SCALE as int) * (SCALE as int)),
            ;
            lemma_mul_fx_bound(m as int, m as int, 2 * (SCALE as int), 2 * (SCALE as int));
            lemma_half_a_lower(*r, m as int);
        }
        let a = fx_mul(m, m);
        let h = r.direction.dot(&cq);
        let cm = cq.magnitude();
        proof {
            lemma_dot_fx_bound(r.direction, cq, SCALE as int, 2 * (WORLD_BOUND as int));
            lemma_sq_sum_bounds(cq, 2 * (WORLD_BOUND as int));
            assert(cm <= 4 * (WORLD_BOUND as int)) by (nonlinear_arith)
                requires
                    0 <= cm,
                    (cm as int) * (cm as int) <= 3 * ((2 * (WORLD_BOUND as int)) * (2 * (WORLD_BOUND as int))),
            ;
            lemma_mul_fx_bound(cm as int, cm as int, 4 * (WORLD_BOUND as int), 4 * (WORLD_BOUND as int));
            lemma_mul_fx_bound(
                self.radius as int,
                self.radius as int,
                WORLD_BOUND as int,
                WORLD_BOUND as int,
            );
            lemma_mul_fx_bound(h as int, h as int, 0x30_0000_0000, 0x30_0000_0000);
        }
        let c = fx_mul(cm, cm) - fx_mul(self.radius, self.radius);
        proof {
            lemma_mul_fx_bound(a as int, c as int, QUAD_A_MAX as int, 0x400_0000_0000_0000);
        }
        let discriminant = fx_mul(h, h) - fx_mul(a, c);
        Quadratic::new_with_discriminant(a, h, discriminant)
    }

    /// Build the hit record for one root.
    fn hit_at(&self, ray: &Ray, t: i64) -> (h: Hit)
        requires
            self.wf(),
            ray.wf(),
            bounded(ray.origin, WORLD_BOUND as int),
            -ROOT_BOUND <= t <= ROOT_BOUND,
        ensures
            h == sphere_hit(*self, *ray, t),
    {
        proof {
            lemma_scale_unit_bound(t as int, ray.direction.x as int);
            lemma_scale_unit_bound(t as int, ray.direction.y as int);
            lemma_scale_unit_bound(t as int, ray.direction.z as int);
        }
        let p = ray.at(t);
        let d = p.subtract(self.origin);
        if d.x == 0 && d.y == 0 && d.z == 0 {
            proof {
                assert(sq_sum(d) == 0);
                assert(d == diff_v(ray.at_v(t), self.origin));
            }
            Hit { t, p, normal: Vec3::new(0, 0, 0) }
        } else {
            proof {
                assert(1 <= sq_sum(d)) by (nonlinear_arith)
                    requires
                        d.x != 0 || d.y != 0 || d.z != 0,
                ;
                assert(d == diff_v(ray.at_v(t), self.origin));
            }
            let normal = d.normalise();
            Hit { t, p, normal }
        }
    }
}

impl Intersectable for Sphere {
    /// A valid sphere: center within the world bound, radius positive and
    /// within it.
    open spec fn wf(&self) -> bool {
        &&& bounded(self.origin, WORLD_BOUND as int)
        &&& 1 <= self.radius <= WORLD_BOUND
    }

    /// The probe reports a hit iff the standard-form discriminant is
    /// nonnegative (a tangent counts as a hit).
    open spec fn probe(&self, ray: Ray) -> bool {
        probe_disc(*self, ray) >= 0
    }

    open spec fn hit_model(&self, ray: Ray) -> Option<Seq<Hit>> {
        sphere_hits(*self, ray)
    }

    fn intersect(&self, ray: &Ray) -> (b: bool) {
        self.get_quadratic(ray).discriminant >= 0
    }

    fn intersect_hits(&self, ray: &Ray) -> (hits: Option<Vec<Hit>>) {
        let q = self.get_quadratic_v2(ray);
        match q.solutions {
            None => None,
            Some(ts) => {
                let mut out: Vec<Hit> = Vec::new();
                let mut i: usize = 0;
                while i < ts.len()
                    invariant
                        self.wf(),
                        ray.wf(),
                        bounded(ray.origin, WORLD_BOUND as int),
                        i <= ts.len(),
                        out@.len() == i as int,
                        forall|j: int| 0 <= j < ts@.len()
                            ==> -ROOT_BOUND <= #[trigger] ts@[j] <= ROOT_BOUND,
                        forall|j: int| 0 <= j < i as int
                            ==> #[trigger] out@[j] == sphere_hit(*self, *ray, ts@[j]),
                    decreases ts.len() - i,
                {
                    let h = self.hit_at(ray, ts[i]);
                    out.push(h);
                    i = i + 1;
                }
                proof {
                    let model = sphere_hits(*self, *ray)->Some_0;
                    if half_disc(*self, *ray) == 0 {
                        assert(out@ =~= model);
                    } else {
                        assert(out@ =~= model);
                    }
                }
                Some(out)
            }
        }
    }
}

/// Rounding margin between the probe's standard-form discriminant and four
/// times the half-form discriminant that the hit computation uses.
pub const DISC_GAP: i64 = 0x8000_0000_0000;

/// The existence probe's discriminant tracks four times the hit
/// computation's: floor rounding can separate them by at most `DISC_GAP` raw
/// units, so the two tests can only disagree within that margin of a
/// tangency.  In particular a decisively positive half-form discriminant
/// makes the probe accept, and a decisively negative probe discriminant
/// means the hit computation misses too.
pub proof fn lemma_probe_disc_tracks_half_disc(s: Sphere, r: Ray)
    requires
        s.wf(),
        r.wf(),
        bounded(r.origin, WORLD_BOUND as int),
    ensures
        4 * half_disc(s, r) - DISC_GAP <= probe_disc(s, r) <= 4 * half_disc(s, r) + DISC_GAP,
        DISC_GAP <= 4 * half_disc(s, r) ==> 0 <= probe_disc(s, r),
        probe_disc(s, r) < -DISC_GAP ==> half_disc(s, r) < 0,
{
    let sc = SCALE as int;
    let w2 = 2 * (WORLD_BOUND as int);
    let d = r.direction;
    let co = center_offset(s, r);
    let h = half_h(s, r);
    assert(bounded(co, w2));
    // leading coefficients: the probe's from the raw square sum, the hit
    // computation's from the squared floored root
    let qd = sq_sum(d);
    lemma_sq_sum_bounds(d, sc);
    let m = mag_fx(d);
    crate::vec::lemma_sqrt_floor_exists(qd);
    let a = std_a(r);
    let a2 = half_a(r);
    assert(a == qd / sc);
    assert(a2 == (m * m) / sc);
    assert(m <= 2 * sc) by (nonlinear_arith)
        requires
            0 <= m,
            m * m <= qd,
            qd <= 3 * (sc * sc),
            0 < sc,
    ;
    assert(qd <= m * m + 2 * m) by (nonlinear_arith)
        requires
            qd < (m + 1) * (m + 1),
    ;
    assert(0 <= m * m) by (nonlinear_arith);
    lemma_div_bounds(qd, sc, m * m, m * m + 2 * m);
    lemma_div_add_ub(m * m, 2 * m, sc);
    lemma_div_bounds(2 * m, sc, 0, 4 * sc);
    lemma_div_multiples_vanish(4, sc);
    assert(0 <= a - a2 <= 5);
    lemma_dot_fx_bound(d, d, sc, sc);
    assert(0x4000 <= a <= 0x30000);
    // constant coefficients: likewise for the center offset
    let qc = sq_sum(co);
    lemma_sq_sum_bounds(co, w2);
    let cm = mag_fx(co);
    crate::vec::lemma_sqrt_floor_exists(qc);
    let c = std_c(s, r);
    let c2 = half_c(s, r);
    let rr = mul_fx(s.radius as int, s.radius as int);
    assert(c == qc / sc - rr);
    assert(c2 == (cm * cm) / sc - rr);
    assert(cm <= 0x20_0000_0000) by (nonlinear_arith)
        requires
            0 <= cm,
            cm * cm <= qc,
            qc <= 3 * (w2 * w2),
            w2 == 0x10_0000_0000,
    ;
    assert(qc <= cm * cm + 2 * cm) by (nonlinear_arith)
        requires
            qc < (cm + 1) * (cm + 1),
    ;
    assert(0 <= cm * cm) by (nonlinear_arith);
    lemma_div_bounds(qc, sc, cm * cm, cm * cm + 2 * cm);
    lemma_div_add_ub(cm * cm, 2 * cm, sc);
    lemma_div_bounds(2 * cm, sc, 0, 0x40_0000_0000);
    assert(0 <= c - c2 <= 0x40_0001);
    lemma_div_bounds(cm * cm, sc, 0, 3 * (w2 * w2));
    assert(0 <= s.radius * s.radius <= (WORLD_BOUND as int) * (WORLD_BOUND as int))
        by (nonlinear_arith)
        requires
            1 <= s.radius <= WORLD_BOUND as int,
    ;
    lemma_mul_fx_bound(
        s.radius as int,
        s.radius as int,
        WORLD_BOUND as int,
        WORLD_BOUND as int,
    );
    lemma_div_bounds(s.radius * s.radius, sc, 0, (WORLD_BOUND as int) * (WORLD_BOUND as int));
    assert((WORLD_BOUND as int) * (WORLD_BOUND as int) == 0x40_0000_0000_0000_0000)
        by (nonlinear_arith)
        requires
            WORLD_BOUND as int == 0x8_0000_0000,
    ;
    assert(-0x40_0000_0000_0000 <= c2 <= 0x300_0000_0000_0000);
    // the scaled products stay within a fixed distance of each other
    assert(-0x1000_0000_0000_0000 <= a * c - a2 * c2 <= 0x1000_0000_0000_0000)
        by (nonlinear_arith)
        requires
            0 <= a <= 0x30000,
            0 <= a - a2 <= 5,
            0 <= c - c2 <= 0x40_0001,
            -0x40_0000_0000_0000 <= c2 <= 0x300_0000_0000_0000,
    ;
    lemma_div_bounds(a * c - a2 * c2, sc, -0x1000_0000_0000_0000, 0x1000_0000_0000_0000);
    lemma_div_bounds(a2 * c2 - a * c, sc, -0x1000_0000_0000_0000, 0x1000_0000_0000_0000);
    lemma_div_add_ub(a2 * c2, a * c - a2 * c2, sc);
    lemma_div_add_ub(a * c, a2 * c2 - a * c, sc);
    assert(mul_fx(a, c) - mul_fx(a2, c2) <= 0x1000_0000_0001);
    assert(mul_fx(a2, c2) - mul_fx(a, c) <= 0x1000_0000_0001);
    // the squared linear coefficient is four squared halves, up to three
    assert(std_b(s, r) == -2 * h);
    assert((-2 * h) * (-2 * h) == 4 * (h * h)) by (nonlinear_arith);
    lemma_div_four(h * h, sc);
    assert(mul_fx(-2 * h, -2 * h) == (4 * (h * h)) / sc);
    assert(probe_disc(s, r) == mul_fx(-2 * h, -2 * h) - 4 * mul_fx(a, c));
    assert(half_disc(s, r) == mul_fx(h, h) - mul_fx(a2, c2));
}

/// A ray aimed directly at a sphere's center from outside produces exactly
/// two hits, far-then-near, whose parameters are the center distance plus
/// and minus the radius — to within one raw unit of rounding.  Stated for
/// the exactly representable head-on family: an axis-aligned unit direction,
/// the center straight ahead at distance `dist`, and a radius of at least
/// one unit.
pub proof fn lemma_head_on_hits(s: Sphere, r: Ray, dist: int)
    requires
        s.wf(),
        bounded(r.origin, WORLD_BOUND as int),
        r.direction.x == 0,
        r.direction.y == 0,
        r.direction.z == -SCALE,
        s.origin.x == r.origin.x,
        s.origin.y == r.origin.y,
        r.origin.z - s.origin.z == dist,
        SCALE <= s.radius,
        s.radius < dist,
    ensures
        half_disc(s, r) == (s.radius * s.radius) / (SCALE as int),
        0 < half_disc(s, r),
        sphere_hits(s, r) matches Some(v) && v.len() == 2
            && dist + s.radius - 1 <= v[0].t <= dist + s.radius
            && dist - s.radius <= v[1].t <= dist - s.radius + 1
            && v[1].t <= v[0].t,
{
    let sc = SCALE as int;
    let rad = s.radius as int;
    let d = r.direction;
    let co = center_offset(s, r);
    assert(co.x == 0 && co.y == 0 && co.z == -dist);
    assert(dist <= 2 * (WORLD_BOUND as int));
    // the direction is exactly unit: magnitude SCALE, leading coefficient SCALE
    assert(sq_sum(d) == sc * sc) by (nonlinear_arith)
        requires
            d.x == 0,
            d.y == 0,
            d.z == -sc,
    ;
    assert(sc * sc < (sc + 1) * (sc + 1)) by (nonlinear_arith)
        requires
            0 < sc,
    ;
    crate::fixed::lemma_sqrt_floor(sc * sc, sc);
    let a = half_a(r);
    assert(a == sc) by {
        lemma_div_multiples_vanish(sc, sc);
    }
    // the center offset's magnitude is exactly the distance
    assert(sq_sum(co) == dist * dist) by (nonlinear_arith)
        requires
            co.x == 0,
            co.y == 0,
            co.z == -dist,
    ;
    assert(dist * dist < (dist + 1) * (dist + 1)) by (nonlinear_arith)
        requires
            0 < dist,
    ;
    crate::fixed::lemma_sqrt_floor(dist * dist, dist);
    // h is exactly the distance; the discriminant collapses to radius^2
    let h = half_h(s, r);
    assert(h == dist) by {
        assert(d.x * co.x + d.y * co.y + d.z * co.z == sc * dist) by (nonlinear_arith)
            requires
                d.x == 0,
                d.y == 0,
                d.z == -sc,
                co.x == 0,
                co.y == 0,
                co.z == -dist,
        ;
        lemma_div_multiples_vanish(dist, sc);
    }
    let rr = (rad * rad) / sc;
    let c2 = half_c(s, r);
    assert(c2 == (dist * dist) / sc - rr);
    assert(half_disc(s, r) == rr) by {
        assert(sc * c2 == c2 * sc) by (nonlinear_arith);
        lemma_div_multiples_vanish(c2, sc);
        assert(mul_fx(a, c2) == c2);
    }
    // the discriminant is at least one whole unit
    assert(sc * sc <= rad * rad) by (nonlinear_arith)
        requires
            sc <= rad,
            0 < sc,
    ;
    assert(rad * rad <= (WORLD_BOUND as int) * (WORLD_BOUND as int)) by (nonlinear_arith)
        requires
            0 <= rad <= WORLD_BOUND as int,
    ;
    lemma_div_bounds(rad * rad, sc, sc * sc, (WORLD_BOUND as int) * (WORLD_BOUND as int));
    assert((sc * sc) / sc == sc) by {
        lemma_div_multiples_vanish(sc, sc);
    }
    assert(sc <= rr);
    // the root of the floored discriminant is the radius, up to one unit
    vstd::arithmetic::div_mod::lemma_fundamental_div_mod(rad * rad, sc);
    assert(sc * rr == rr * sc) by (nonlinear_arith);
    assert(rad * rad - sc < rr * sc <= rad * rad);
    let sq = sqrt_fx(rr);
    crate::vec::lemma_sqrt_floor_exists(rr * sc);
    assert(sq <= rad) by (nonlinear_arith)
        requires
            0 <= sq,
            sq * sq <= rr * sc,
            rr * sc <= rad * rad,
            0 <= rad,
    ;
    assert(rad - 1 <= sq) by (nonlinear_arith)
        requires
            0 <= sq,
            rr * sc < (sq + 1) * (sq + 1),
            rad * rad - sc < rr * sc,
            sc <= rad,
            sc == 65536,
    ;
    // both roots are exact sums, so within one unit of distance +- radius
    assert(root_far(h, a, rr) == dist + sq) by {
        assert((dist + sq) * sc == sc * (dist + sq)) by (nonlinear_arith);
        lemma_div_multiples_vanish(dist + sq, sc);
    }
    assert(root_near(h, a, rr) == dist - sq) by {
        assert((dist - sq) * sc == sc * (dist - sq)) by (nonlinear_arith);
        lemma_div_multiples_vanish(dist - sq, sc);
    }
}

/// The cheap probe and the full hit computation agree on existence outside
/// the rounding margin: a hit list decisively exists only with the probe's
/// consent, and a decisively failing probe goes with an empty hit list.
pub proof fn lemma_probe_and_hits_agree_outside_margin(s: Sphere, r: Ray)
    requires
        s.wf(),
        r.wf(),
        bounded(r.origin, WORLD_BOUND as int),
    ensures
        DISC_GAP <= 4 * half_disc(s, r) ==> s.probe(r),
        probe_disc(s, r) < -DISC_GAP ==> s.hit_model(r) is None,
{
    lemma_probe_disc_tracks_half_disc(s, r);
}

/// What a sphere hit's normal looks like: always bounded by one unit; a unit
/// vector up to four raw units of rounding whenever the hit point sits at
/// least one unit from the center (with radius at least one unit, every
/// exact hit point does); and exactly the zero vector in the degenerate case
/// where rounding lands the computed point on the center itself.
pub proof fn lemma_sphere_hit_normal(s: Sphere, r: Ray, t: i64)
    ensures
        bounded(sphere_hit(s, r, t).normal, SCALE as int),
        (SCALE as int) * (SCALE as int) <= sq_sum(diff_v(r.at_v(t), s.origin))
            ==> SCALE - 4 <= mag_fx(sphere_hit(s, r, t).normal) <= SCALE + 4,
        sq_sum(diff_v(r.at_v(t), s.origin)) < 1 ==> sphere_hit(s, r, t).normal == (Vec3 {
            x: 0,
            y: 0,
            z: 0,
        }),
{
    let d = diff_v(r.at_v(t), s.origin);
    if 1 <= sq_sum(d) {
        crate::vec::lemma_component_le_mag(d);
        crate::vec::lemma_norm_component_bounds(d.x as int, mag_fx(d));
        crate::vec::lemma_norm_component_bounds(d.y as int, mag_fx(d));
        crate::vec::lemma_norm_component_bounds(d.z as int, mag_fx(d));
        if (SCALE as int) * (SCALE as int) <= sq_sum(d) {
            crate::vec::lemma_normalise_near_unit(d);
        }
    }
}

/// The solver's root ordering, stated once for every sphere and well-formed
/// ray: when the discriminant is positive, the far root is at least the near
/// root — callers that want the nearest hit must take the last element.
pub proof fn lemma_roots_far_then_near(s: Sphere, r: Ray)
    requires
        r.wf(),
        0 < half_disc(s, r),
    ensures
        root_near(half_h(s, r), half_a(r), half_disc(s, r))
            <= root_far(half_h(s, r), half_a(r), half_disc(s, r)),
{
    let h = half_h(s, r);
    let a = half_a(r);
    let d = half_disc(s, r);
    let sq = sqrt_fx(d);
    lemma_half_a_lower(r, mag_fx(r.direction));
    assert(0 <= d * (SCALE as int)) by (nonlinear_arith)
        requires
            0 < d,
            0 < SCALE as int,
    ;
    crate::vec::lemma_sqrt_floor_exists(d * (SCALE as int));
    assert((h - sq) * (SCALE as int) <= (h + sq) * (SCALE as int)) by (nonlinear_arith)
        requires
            0 <= sq,
            0 < SCALE as int,
    ;
    lemma_div_is_ordered((h - sq) * (SCALE as int), (h + sq) * (SCALE as int), a);
}

/// From a well-formed ray, the half-form leading coefficient is at least a
/// quarter unit (and in particular at least 1).
proof fn lemma_half_a_lower(r: Ray, m: int)
    requires
        r.wf(),
        m == mag_fx(r.direction),
    ensures
        0x4000 <= half_a(r),
{
    let s = SCALE as int;
    let ss = sq_sum(r.direction);
    assert(0x4000 <= dot_fx(r.direction, r.direction));
    if ss < 0x4000_0000 {
        lemma_div_is_ordered(ss, 0x4000_0000 - 1, s);
        assert(false);
    }
    crate::vec::lemma_sqrt_floor_exists(ss);
    assert(0x8000 <= m) by (nonlinear_arith)
        requires
            0 <= m,
            0x4000_0000 <= ss,
            ss < (m + 1) * (m + 1),
    ;
    assert(0x4000_0000 <= m * m) by (nonlinear_arith)
        requires
            0x8000 <= m,
    ;
    lemma_div_is_ordered(0x4000_0000, m * m, s);
}

} // verus!
