//! Integer core of an XPBD particle simulation, verified with Verus: the
//! spatial hash grid and contact broad phase, the Barnes-Hut octree arena,
//! cloth and rigid-body constraint topology, particle phases, and the
//! adaptive-quality controller. Floating-point work (positions, constraint
//! solves, forces) is done by callers on top of these structures.

use vstd::prelude::*;

pub mod grid;
pub mod octree;
pub mod particle;
pub mod quality;
pub mod topology;

verus! {

} // verus!
