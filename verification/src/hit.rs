//! The record of a successful ray/primitive intersection.

use vstd::prelude::*;
use crate::point::Point3;
use crate::vec::Vec3;

verus! {

/// A resolved intersection: the ray parameter `t`, the world point `p`
/// reached at that parameter, and the surface normal there.
#[derive(Debug, Clone, Copy, PartialEq, Eq, Structural)]
pub struct Hit {
    pub t: i64,
    pub p: Point3,
    pub normal: Vec3,
}

} // verus!
