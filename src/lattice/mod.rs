pub mod regular_lattice;
pub mod row_lattice;
pub mod tiling_graph;
pub mod uniform_lattice;
pub mod utils;

use vstd::prelude::*;
use crate::model::SandPileModel;
use crate::region::Cuboid;

verus! {

/// A periodic arrangement of cells that can be laid over a box.
pub trait Lattice {
    /// The lattice can be built over the hull within machine limits.
    spec fn fits(&self, hull: Cuboid) -> bool;

    /// `m` is the lattice laid over the hull.
    spec fn is_lattice(&self, hull: Cuboid, m: SandPileModel) -> bool;

    /// The lattice over the box from the origin to `cuboid_hull`.
    fn get_lattice(&self, cuboid_hull: &Cuboid) -> (r: SandPileModel)
        requires
            cuboid_hull.in_limits(),
            self.fits(*cuboid_hull),
        ensures
            r.wf(),
            r.graph.total_sand() == 0,
            self.is_lattice(*cuboid_hull, r);
}

} // verus!
