//! Infinite planes.

use vstd::prelude::*;
use vstd::arithmetic::div_mod::lemma_div_is_ordered;
use crate::color::RGBAColor;
use crate::fixed::{div_fx, fx_div, lemma_div_shrinks, SCALE};
use crate::hit::Hit;
use crate::point::Point3;
use crate::ray::{lemma_scale_unit_bound, Ray};
use crate::traits::{Intersectable, WORLD_BOUND};
use crate::vec::{bounded, diff_v, dot_fx, lemma_dot_fx_bound, sq_sum, Vec3};

verus! {

/// Largest raw component magnitude accepted for a plane's orientation
/// vector: enough for any normalised direction with room to spare, while the
/// intersection parameter still fits in `i64`.
pub const ORIENT_BOUND: i64 = crate::color::NORMAL_BOUND;

/// A scene plane: a point on it, its orientation (normal) vector, and a
/// surface color (declared with the plane, though the present shading rule
/// does not consume it).
#[derive(Debug, Clone, Copy, PartialEq, Eq, Structural)]
pub struct Plane {
    pub origin: Point3,
    pub orient: Vec3,
    pub color: RGBAColor,
}

/// The denominator of the plane equation: `d . n`.
pub open spec fn plane_denom(p: Plane, r: Ray) -> int {
    dot_fx(r.direction, p.orient)
}

/// The intersection parameter `t = ((P - Q) . n) / (d . n)`.
pub open spec fn plane_t(p: Plane, r: Ray) -> int {
    div_fx(dot_fx(diff_v(p.origin, r.origin), p.orient), plane_denom(p, r))
}

/// The single hit a plane reports: parameter `plane_t`, the reached point,
/// and the plane's own orientation as the normal — as it is, not corrected
/// for the side the ray came from.
pub open spec fn plane_hit(p: Plane, r: Ray) -> Hit {
    Hit { t: plane_t(p, r) as i64, p: r.at_v(plane_t(p, r) as i64), normal: p.orient }
}

impl Intersectable for Plane {
    /// A valid plane: coordinates within the world bound and a nonzero
    /// orientation vector of moderate size.
    open spec fn wf(&self) -> bool {
        &&& bounded(self.origin, WORLD_BOUND as int)
        &&& bounded(self.orient, ORIENT_BOUND as int)
        &&& 1 <= sq_sum(self.orient)
    }

    /// The probe accepts only rays whose direction has a positive component
    /// along the plane's orientation — at least one raw unit, this
    /// representation's smallest positive stability threshold.  Rays parallel
    /// to the plane or on the other side of this asymmetric test report no
    /// hit: a deliberate sign convention, kept as it is.
    open spec fn probe(&self, ray: Ray) -> bool {
        plane_denom(*self, ray) >= 1
    }

    /// Exactly one hit whenever the probe accepts, and none otherwise.
    open spec fn hit_model(&self, ray: Ray) -> Option<Seq<Hit>> {
        if plane_denom(*self, ray) >= 1 {
            Some(seq![plane_hit(*self, ray)])
        } else {
            None
        }
    }

    fn intersect(&self, ray: &Ray) -> (b: bool) {
        let denominator = ray.direction.dot(&self.orient);
        denominator >= 1
    }

    fn intersect_hits(&self, ray: &Ray) -> (hits: Option<Vec<Hit>>) {
        let denominator = ray.direction.dot(&self.orient);
        if denominator >= 1 {
            let qp = self.origin.subtract(ray.origin);
            let numerator = qp.dot(&self.orient);
            proof {
                lemma_dot_fx_bound(
                    qp,
                    self.orient,
                    2 * (WORLD_BOUND as int),
                    ORIENT_BOUND as int,
                );
                lemma_div_shrinks(
                    (numerator as int) * (SCALE as int),
                    denominator as int,
                    0x3000_0000_0000_0000,
                );
            }
            let t = fx_div(numerator, denominator);
            proof {
                assert(t == plane_t(*self, *ray));
            }
            proof {
                lemma_scale_unit_bound(t as int, ray.direction.x as int);
                lemma_scale_unit_bound(t as int, ray.direction.y as int);
                lemma_scale_unit_bound(t as int, ray.direction.z as int);
            }
            let p = ray.at(t);
            let hit = Hit { t, p, normal: self.orient };
            proof {
                assert(hit == plane_hit(*self, *ray));
            }
            Some(vec![hit])
        } else {
            None
        }
    }
}

} // verus!
