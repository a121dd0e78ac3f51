//! World-space locations.

use vstd::prelude::*;
use crate::vec::Vec3;

verus! {

/// A world-space location: the same representation and operations as `Vec3`,
/// kept under its own name to mark the coordinate-space distinction.
pub type Point3 = Vec3;

} // verus!
