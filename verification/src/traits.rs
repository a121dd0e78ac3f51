//! The shared intersection capability of the scene's primitives.

use vstd::prelude::*;
use crate::hit::Hit;
use crate::ray::Ray;
use crate::vec::bounded;

verus! {

/// Bound on the raw coordinates of scene geometry (primitive origins, radii
/// and ray origins): within it, every intermediate of the intersection
/// arithmetic fits in `i64`.
pub const WORLD_BOUND: i64 = 0x8_0000_0000;

/// A primitive that rays can be tested against: a cheap boolean existence
/// probe, and the full hit-list computation.
pub trait Intersectable: Sized {
    /// The primitive's geometric validity: coordinates within `WORLD_BOUND`
    /// and whatever shape constraints the primitive needs.
    spec fn wf(&self) -> bool;

    /// What the existence probe returns.
    spec fn probe(&self, ray: Ray) -> bool;

    /// What the full intersection returns: `None` for a miss, otherwise the
    /// hits in the solver's order.
    spec fn hit_model(&self, ray: Ray) -> Option<Seq<Hit>>;

    /// The cheap existence probe.
    fn intersect(&self, ray: &Ray) -> (b: bool)
        requires
            self.wf(),
            ray.wf(),
            bounded(ray.origin, WORLD_BOUND as int),
        ensures
            b == self.probe(*ray),
    ;

    /// The full hit computation, in the solver's order.
    fn intersect_hits(&self, ray: &Ray) -> (hits: Option<Vec<Hit>>)
        requires
            self.wf(),
            ray.wf(),
            bounded(ray.origin, WORLD_BOUND as int),
        ensures
            (hits is None) == (self.hit_model(*ray) is None),
            hits matches Some(v) ==> self.hit_model(*ray) == Some(v@),
    ;
}

} // verus!
